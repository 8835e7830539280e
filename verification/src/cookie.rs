//! The KeyCrop session cookie: what a user pastes, made into the value of a
//! Cookie header.

use crate::auth::{filled, outcome, AppResult};
use crate::clock::unix_time;
use crate::double::{at_most, double_at_most};
use crate::json::{lemma_tree_parts, parse, parsed_text, trees, Json, JsonNumber, Num, Tree};
use crate::text::{
    chars_of, glue, has_char, join, joined, in_small_letters, law_without_leading, lemma_replaced_past, lemma_trimmed_last, part, replace_all,
    replaced, same_text, small_letters, stands_at, string_of, texts, trim, trim_leading, trimmed,
    without_leading, word_at,
};
use vstd::prelude::*;

verus! {

/// The model of a result that holds a text or a message.
pub open spec fn text_outcome(result: AppResult<String>) -> Result<Seq<char>, Seq<char>> {
    match result {
        Ok(text) => Ok(text@),
        Err(message) => Err(message@),
    }
}

/// The text without the HTML entities and the escapes that messengers put in.
pub open spec fn cleaned(raw: Seq<char>) -> Seq<char> {
    let a = replaced(raw, "&#x20;"@, " "@);
    let b = replaced(a, "&#32;"@, " "@);
    let c = replaced(b, "&quot;"@, "\""@);
    let d = replaced(c, "&amp;"@, "&"@);
    replaced(d, "\\_"@, "_"@)
}

/// Whether a number is at most `now`.
pub open spec fn num_at_most(n: Num, now: int) -> bool {
    match n {
        Num::Unsigned(u) => u <= now,
        Num::Negative(i) => i <= now,
        Num::Double(bits) => at_most(bits, now),
    }
}

/// Whether a cookie with the given expiration date has expired. One without a
/// date does not expire.
pub open spec fn expired(date: Option<Tree>, now: int) -> bool {
    match date {
        Some(Tree::Number(n)) => num_at_most(n, now),
        _ => false,
    }
}

/// Whether an exported cookie belongs to KeyCrop.
pub open spec fn of_keycrop(cookie: Tree) -> bool {
    let domain = match cookie.get("domain"@) {
        Some(Tree::Text(s)) => s,
        _ => ""@,
    };
    small_letters(without_leading(domain, '.')) == "keycrop.net"@
}

/// The pair of name and value that an exported cookie adds to the header.
pub open spec fn pair_of(cookie: Tree, now: int) -> Option<Seq<char>> {
    if !of_keycrop(cookie) || expired(cookie.get("expirationDate"@), now) {
        None
    } else {
        match (filled(cookie.get("name"@)), cookie.get("value"@)) {
            (Some(name), Some(Tree::Text(value))) => if name.contains(';') || name.contains('\n')
                || name.contains('\r') || name.contains('=') || value.contains(';')
                || value.contains('\n') || value.contains('\r') {
                None
            } else {
                Some(name + "="@ + value)
            },
            _ => None,
        }
    }
}

/// The pairs of a list of exported cookies, in their order.
pub open spec fn pairs_of(cookies: Seq<Tree>, now: int) -> Seq<Seq<char>>
    decreases cookies.len(),
{
    if cookies.len() == 0 {
        Seq::empty()
    } else {
        match pair_of(cookies.last(), now) {
            Some(pair) => pairs_of(cookies.drop_last(), now).push(pair),
            None => pairs_of(cookies.drop_last(), now),
        }
    }
}

/// The header value for what reading an export gave.
pub open spec fn export_value(read: Result<Tree, Seq<char>>, now: int) -> Result<
    Seq<char>,
    Seq<char>,
> {
    match read {
        Ok(tree) => {
            let cookies = match tree {
                Tree::List(items) => items,
                _ => Seq::empty(),
            };
            let pairs = pairs_of(cookies, now);
            if pairs.len() == 0 {
                Err("В экспорте нет действующих cookies для keycrop.net"@)
            } else {
                Ok(joined(pairs, "; "@))
            }
        },
        Err(message) => Err("Не удалось прочитать экспорт EditThisCookie: "@ + message),
    }
}

/// The text after the name of the header, where it starts with one.
pub open spec fn after_name(text: Seq<char>) -> Seq<char> {
    if stands_at(text, 0, "Cookie:"@) {
        text.skip("Cookie:"@.len() as int)
    } else if stands_at(text, 0, "cookie:"@) {
        text.skip("cookie:"@.len() as int)
    } else {
        text
    }
}

/// The header value for a pasted header.
pub open spec fn header_value(text: Seq<char>) -> Result<Seq<char>, Seq<char>> {
    let value = trimmed(after_name(text));
    if value.len() == 0 || !value.contains('=') || value.contains('\n') || value.contains('\r') {
        Err("Вставь значение заголовка Cookie целиком, без переносов строк"@)
    } else {
        Ok(value)
    }
}

/// Whether a pasted text is taken for an export rather than for a header.
pub open spec fn is_export(raw: Seq<char>) -> bool {
    let text = trimmed(cleaned(raw));
    text.len() > 0 && text[0] == '['
}

/// The header value for a pasted text, at the time `now`.
pub open spec fn normalized(raw: Seq<char>, now: int) -> Result<Seq<char>, Seq<char>> {
    let text = trimmed(cleaned(raw));
    if is_export(raw) {
        export_value(parsed_text(text), now)
    } else {
        header_value(text)
    }
}

/// Removes the HTML entities and the escapes that messengers put in.
fn clean(raw: &str) -> (chars: Vec<char>)
    ensures
        chars@ == cleaned(raw@),
{
    proof {
        reveal_strlit("&#x20;");
        reveal_strlit("&#32;");
        reveal_strlit("&quot;");
        reveal_strlit("&amp;");
        reveal_strlit("\\_");
    }
    let chars = replace_all(&chars_of(raw), "&#x20;", " ");
    let chars = replace_all(&chars, "&#32;", " ");
    let chars = replace_all(&chars, "&quot;", "\"");
    let chars = replace_all(&chars, "&amp;", "&");
    replace_all(&chars, "\\_", "_")
}

/// Whether a number is at most `now`. A time in seconds lies so far below
/// 2^53 that a double holds it exactly.
fn number_at_most(n: &JsonNumber, now: i64) -> (yes: bool)
    ensures
        yes == num_at_most(n@, now as int),
{
    match n.as_u64() {
        Some(u) => now >= 0 && u <= now as u64,
        None => match n.as_i64() {
            Some(i) => i <= now,
            None => match n.double_bits() {
                Some(bits) => double_at_most(bits, now),
                None => false,
            },
        },
    }
}

/// Whether a cookie with the given expiration date has expired.
fn is_expired(date: Option<&Json>, now: i64) -> (yes: bool)
    ensures
        yes == expired(
            match date {
                Some(json) => Some(json@),
                None => None,
            },
            now as int,
        ),
{
    match date {
        Some(Json::Number(n)) => number_at_most(n, now),
        _ => false,
    }
}

/// The pair of name and value that an exported cookie adds to the header.
pub fn cookie_pair(cookie: &Json, now: i64) -> (pair: Option<String>)
    ensures
        pair is Some <==> pair_of(cookie@, now as int) is Some,
        pair matches Some(s) ==> pair_of(cookie@, now as int) == Some(s@),
{
    let domain = match cookie.get("domain") {
        Some(Json::Text(s)) => s.clone(),
        _ => "".to_owned(),
    };
    let domain = string_of(trim_leading(&chars_of(domain.as_str()), '.'));
    if !same_text(in_small_letters(domain.as_str()).as_str(), "keycrop.net") {
        return None;
    }
    if is_expired(cookie.get("expirationDate"), now) {
        return None;
    }
    let name = match cookie.get("name") {
        Some(Json::Text(s)) => s,
        _ => return None,
    };
    if name.as_str().is_empty() {
        return None;
    }
    let value = match cookie.get("value") {
        Some(Json::Text(s)) => s,
        _ => return None,
    };
    let n = chars_of(name.as_str());
    let v = chars_of(value.as_str());
    if has_char(&n, ';') || has_char(&n, '\n') || has_char(&n, '\r') || has_char(&n, '=')
        || has_char(&v, ';') || has_char(&v, '\n') || has_char(&v, '\r') {
        return None;
    }
    Some(glue(glue(name.as_str(), "=").as_str(), value.as_str()))
}

/// The header value for what reading an export gave.
pub fn exported_cookies(read: AppResult<Json>, now: i64) -> (result: AppResult<String>)
    ensures
        text_outcome(result) == export_value(outcome(read), now as int),
{
    let json = match read {
        Ok(json) => json,
        Err(message) => return Err(
            glue("Не удалось прочитать экспорт EditThisCookie: ", message.as_str()),
        ),
    };
    let cookies = match json {
        Json::List(items) => {
            proof {
                lemma_tree_parts(json);
            }
            items
        },
        _ => {
            assert(!(json@ is List));
            Vec::new()
        },
    };
    let ghost all = trees(cookies@);
    let mut pairs: Vec<String> = Vec::new();
    let mut i: usize = 0;
    assert(all.take(0) == Seq::<Tree>::empty());
    assert(texts(pairs@) == Seq::<Seq<char>>::empty());
    while i < cookies.len()
        invariant
            i <= cookies@.len(),
            all == trees(cookies@),
            texts(pairs@) == pairs_of(all.take(i as int), now as int),
        decreases cookies@.len() - i,
    {
        let ghost before = pairs@;
        assert(all.take(i + 1).drop_last() == all.take(i as int));
        assert(all.take(i + 1).last() == cookies@[i as int]@);
        if let Some(pair) = cookie_pair(&cookies[i], now) {
            pairs.push(pair);
            assert(texts(pairs@) == texts(before).push(pair@));
        }
        i = i + 1;
    }
    assert(all.take(i as int) == all);
    assert(texts(pairs@).len() == pairs@.len());
    if pairs.len() == 0 {
        return Err("В экспорте нет действующих cookies для keycrop.net".to_owned());
    }
    Ok(join(&pairs, "; "))
}

/// The header value for a pasted header.
pub fn header_cookie(text: &Vec<char>) -> (result: AppResult<String>)
    ensures
        text_outcome(result) == header_value(text@),
{
    let capital = chars_of("Cookie:");
    let small = chars_of("cookie:");
    let rest = if word_at(text, 0, &capital) {
        part(text, capital.len(), text.len())
    } else if word_at(text, 0, &small) {
        part(text, small.len(), text.len())
    } else {
        part(text, 0, text.len())
    };
    assert(rest@ == after_name(text@));
    let value = trim(&rest);
    if value.len() == 0 || !has_char(&value, '=') || has_char(&value, '\n') || has_char(
        &value,
        '\r',
    ) {
        return Err("Вставь значение заголовка Cookie целиком, без переносов строк".to_owned());
    }
    Ok(string_of(value))
}

/// The value of the Cookie header for a pasted text, at the time `now`.
pub fn normalized_cookie_at(raw: &str, now: i64) -> (result: AppResult<String>)
    ensures
        text_outcome(result) == normalized(raw@, now as int),
{
    let text = trim(&clean(raw));
    if text.len() > 0 && text[0] == '[' {
        exported_cookies(parse(string_of(text).as_str()), now)
    } else {
        header_cookie(&text)
    }
}

/// The value of the Cookie header for a pasted text: a header as a browser
/// shows it, or the JSON export of EditThisCookie or Cookie-Editor.
pub fn normalized_cookie(raw: &str) -> (result: AppResult<String>)
    ensures
        exists|now: i64|
            0 <= now < 0x20_0000_0000_0000 && text_outcome(result) == #[trigger] normalized(
                raw@,
                now as int,
            ),
        !is_export(raw@) ==> text_outcome(result) == header_value(trimmed(cleaned(raw@))),
{
    normalized_cookie_at(raw, unix_time())
}

/// Whether a text is fit to stand in one header line and holds a pair.
pub open spec fn one_line(text: Seq<char>) -> bool {
    text.contains('=') && !text.contains('\n') && !text.contains('\r')
}

proof fn lemma_concat_has(a: Seq<char>, b: Seq<char>, c: char)
    ensures
        (a + b).contains(c) <==> a.contains(c) || b.contains(c),
{
    if a.contains(c) {
        let i = choose|i: int| 0 <= i < a.len() && a[i] == c;
        assert((a + b)[i] == c);
    }
    if b.contains(c) {
        let i = choose|i: int| 0 <= i < b.len() && b[i] == c;
        assert((a + b)[a.len() + i] == c);
    }
    if (a + b).contains(c) {
        let i = choose|i: int| 0 <= i < (a + b).len() && (a + b)[i] == c;
        if i < a.len() {
            assert(a[i] == c);
        } else {
            assert(b[i - a.len()] == c);
        }
    }
}

proof fn lemma_one_line_concat(a: Seq<char>, b: Seq<char>)
    requires
        !a.contains('\n') && !a.contains('\r'),
        !b.contains('\n') && !b.contains('\r'),
        a.contains('=') || b.contains('='),
    ensures
        one_line(a + b),
{
    lemma_concat_has(a, b, '=');
    lemma_concat_has(a, b, '\n');
    lemma_concat_has(a, b, '\r');
}

proof fn lemma_pair_is_one_line(cookie: Tree, now: int)
    ensures
        pair_of(cookie, now) matches Some(pair) ==> one_line(pair),
{
    if let Some(pair) = pair_of(cookie, now) {
        reveal_strlit("=");
        let name = filled(cookie.get("name"@))->0;
        let value = cookie.get("value"@)->0->Text_0;
        assert("="@[0] == '=');
        lemma_one_line_concat(name, "="@);
        lemma_one_line_concat(name + "="@, value);
    }
}

proof fn lemma_joined_is_one_line(pairs: Seq<Seq<char>>)
    requires
        pairs.len() > 0,
        forall|i: int| 0 <= i < pairs.len() ==> one_line(#[trigger] pairs[i]),
    ensures
        one_line(joined(pairs, "; "@)),
    decreases pairs.len(),
{
    if pairs.len() > 1 {
        let before = pairs.drop_last();
        assert forall|i: int| 0 <= i < before.len() implies one_line(#[trigger] before[i]) by {
            assert(before[i] == pairs[i]);
        }
        lemma_joined_is_one_line(before);
        reveal_strlit("; ");
        assert(pairs[pairs.len() - 1] == pairs.last());
        lemma_one_line_concat(joined(before, "; "@), "; "@);
        lemma_one_line_concat(joined(before, "; "@) + "; "@, pairs.last());
    }
}

/// Each pair comes from a cookie of the list that belongs to KeyCrop and has
/// not expired.
pub proof fn law_pairs_come_from_live_cookies(cookies: Seq<Tree>, now: int, j: int)
    requires
        0 <= j < pairs_of(cookies, now).len(),
    ensures
        exists|i: int|
            0 <= i < cookies.len() && pair_of(#[trigger] cookies[i], now) == Some(
                pairs_of(cookies, now)[j],
            ) && of_keycrop(cookies[i]) && !expired(cookies[i].get("expirationDate"@), now),
    decreases cookies.len(),
{
    if cookies.len() > 0 {
        let before = cookies.drop_last();
        if j < pairs_of(before, now).len() {
            law_pairs_come_from_live_cookies(before, now, j);
            let i = choose|i: int|
                0 <= i < before.len() && pair_of(#[trigger] before[i], now) == Some(
                    pairs_of(before, now)[j],
                ) && of_keycrop(before[i]) && !expired(before[i].get("expirationDate"@), now);
            assert(cookies[i] == before[i]);
        } else {
            assert(cookies[cookies.len() - 1] == cookies.last());
        }
    }
}

/// What is accepted is fit to be sent: it is one line and holds a pair of
/// name and value.
pub proof fn law_cookie_is_one_line(raw: Seq<char>, now: int)
    ensures
        normalized(raw, now) matches Ok(value) ==> one_line(value),
{
    if is_export(raw) {
        if let Ok(tree) = parsed_text(trimmed(cleaned(raw))) {
            let cookies = match tree {
                Tree::List(items) => items,
                _ => Seq::empty(),
            };
            let pairs = pairs_of(cookies, now);
            assert forall|j: int| 0 <= j < pairs.len() implies one_line(#[trigger] pairs[j]) by {
                law_pairs_come_from_live_cookies(cookies, now, j);
                let i = choose|i: int|
                    0 <= i < cookies.len() && pair_of(#[trigger] cookies[i], now) == Some(pairs[j])
                        && of_keycrop(cookies[i]) && !expired(
                        cookies[i].get("expirationDate"@),
                        now,
                    );
                lemma_pair_is_one_line(cookies[i], now);
            }
            if pairs.len() > 0 {
                lemma_joined_is_one_line(pairs);
            }
        }
    }
}

/// A cookie that has expired does not come back later.
pub proof fn law_expired_stays_expired(date: Option<Tree>, now: int, later: int)
    requires
        now <= later,
        expired(date, now),
    ensures
        expired(date, later),
{
    if let Some(Tree::Number(Num::Double(bits))) = date {
        let p = vstd::arithmetic::power2::pow2((-crate::double::power(bits)) as nat) as int;
        assert(now * p <= later * p) by (nonlinear_arith)
            requires
                now <= later,
                p >= 0,
        ;
    }
}

/// Where the first character of a word does not occur, nothing is replaced.
proof fn lemma_nothing_to_replace(text: Seq<char>, from: Seq<char>, to: Seq<char>)
    requires
        from.len() > 0,
        !text.contains(from[0]),
    ensures
        replaced(text, from, to) == text,
    decreases text.len(),
{
    if text.len() > 0 {
        if stands_at(text, 0, from) {
            assert(text.subrange(0, from.len() as int)[0] == text[0]);
        }
        assert(!text.drop_first().contains(from[0])) by {
            if text.drop_first().contains(from[0]) {
                let i = choose|i: int|
                    0 <= i < text.drop_first().len() && text.drop_first()[i] == from[0];
                assert(text[i + 1] == from[0]);
            }
        }
        lemma_nothing_to_replace(text.drop_first(), from, to);
        assert(seq![text[0]] + text.drop_first() == text);
    }
}

/// The value of a Cookie header that holds neither entities nor escapes is
/// taken as it is.
pub proof fn law_header_is_taken_as_it_is(value: Seq<char>, now: int)
    requires
        !value.contains('&') && !value.contains('\\'),
        trimmed(value) == value,
        one_line(value),
        value[0] != '[',
        after_name(value) == value,
    ensures
        normalized(value, now) == Ok::<Seq<char>, Seq<char>>(value),
{
    reveal_strlit("&#x20;");
    reveal_strlit("&#32;");
    reveal_strlit("&quot;");
    reveal_strlit("&amp;");
    reveal_strlit("\\_");
    lemma_nothing_to_replace(value, "&#x20;"@, " "@);
    lemma_nothing_to_replace(value, "&#32;"@, " "@);
    lemma_nothing_to_replace(value, "&quot;"@, "\""@);
    lemma_nothing_to_replace(value, "&amp;"@, "&"@);
    lemma_nothing_to_replace(value, "\\_"@, "_"@);
}

/// A pasted header may carry its name: with `Cookie:` and a space before it,
/// the same value comes out.
pub proof fn law_header_name_is_dropped(value: Seq<char>, now: int)
    requires
        !value.contains('&') && !value.contains('\\'),
        trimmed(value) == value,
        one_line(value),
    ensures
        normalized("Cookie: "@ + value, now) == Ok::<Seq<char>, Seq<char>>(value),
{
    reveal_strlit("&#x20;");
    reveal_strlit("&#32;");
    reveal_strlit("&quot;");
    reveal_strlit("&amp;");
    reveal_strlit("\\_");
    reveal_strlit("Cookie: ");
    reveal_strlit("Cookie:");
    let raw = "Cookie: "@ + value;
    lemma_concat_has("Cookie: "@, value, '&');
    lemma_concat_has("Cookie: "@, value, '\\');
    lemma_nothing_to_replace(raw, "&#x20;"@, " "@);
    lemma_nothing_to_replace(raw, "&#32;"@, " "@);
    lemma_nothing_to_replace(raw, "&quot;"@, "\""@);
    lemma_nothing_to_replace(raw, "&amp;"@, "&"@);
    lemma_nothing_to_replace(raw, "\\_"@, "_"@);
    assert(cleaned(raw) == raw);
    assert(raw[0] == 'C');
    lemma_trimmed_last(value);
    assert(raw.last() == value.last());
    assert(trimmed(raw) == raw);
    assert(raw.subrange(0, 7) == "Cookie:"@);
    assert(after_name(raw) == raw.skip(7));
    let rest = raw.skip(7);
    assert(rest[0] == ' ');
    assert(rest.drop_first() == value);
}

/// Where a character of the text differs from the word's, the word does not
/// stand there.
proof fn lemma_stands_not(text: Seq<char>, at: int, word: Seq<char>, k: int)
    requires
        0 <= k < word.len(),
        0 <= at,
        at + k < text.len(),
        text[at + k] != word[k],
    ensures
        !stands_at(text, at, word),
{
    if stands_at(text, at, word) {
        assert(text.subrange(at, at + word.len())[k] == text[at + k]);
    }
}

/// Writing a character as an entity and reading the entity again gives the
/// text back.
proof fn lemma_entity_undone(raw: Seq<char>, c: char, entity: Seq<char>)
    requires
        entity.len() > 0,
        entity[0] != c,
        !raw.contains(entity[0]),
    ensures
        replaced(replaced(raw, seq![c], entity), entity, seq![c]) == raw,
    decreases raw.len(),
{
    let written = replaced(raw, seq![c], entity);
    if raw.len() > 0 {
        let rest = raw.drop_first();
        assert(!rest.contains(entity[0])) by {
            if rest.contains(entity[0]) {
                let i = choose|i: int| 0 <= i < rest.len() && rest[i] == entity[0];
                assert(raw[i + 1] == entity[0]);
            }
        }
        lemma_entity_undone(rest, c, entity);
        assert(raw.subrange(0, 1) == seq![raw[0]]);
        assert(seq![c][0] == c);
        assert(raw[0] == c <==> stands_at(raw, 0, seq![c])) by {
            if stands_at(raw, 0, seq![c]) {
                assert(raw.subrange(0, 1)[0] == c);
            }
        }
        if raw[0] == c {
            assert(raw.skip(1) == rest);
            let written_rest = replaced(rest, seq![c], entity);
            assert(written == entity + written_rest);
            assert(written.subrange(0, entity.len() as int) == entity);
            assert(written.skip(entity.len() as int) == written_rest);
            assert(seq![c] + rest == raw);
        } else {
            let written_rest = replaced(rest, seq![c], entity);
            assert(written == seq![raw[0]] + written_rest);
            assert(raw.contains(raw[0]));
            lemma_stands_not(written, 0, entity, 0);
            assert(written.drop_first() == written_rest);
            assert(seq![raw[0]] + rest == raw);
        }
    }
}

/// An entity is not taken for another one that differs from it early on.
proof fn lemma_other_entity(
    raw: Seq<char>,
    c: char,
    entity: Seq<char>,
    other: Seq<char>,
    to: Seq<char>,
    k: int,
)
    requires
        other.len() > 0,
        !raw.contains(other[0]),
        0 <= k < entity.len(),
        k < other.len(),
        entity[k] != other[k],
        forall|i: int| 1 <= i < entity.len() ==> #[trigger] entity[i] != other[0],
    ensures
        replaced(replaced(raw, seq![c], entity), other, to) == replaced(raw, seq![c], entity),
    decreases raw.len(),
{
    let written = replaced(raw, seq![c], entity);
    if raw.len() > 0 {
        let rest = raw.drop_first();
        assert(!rest.contains(other[0])) by {
            if rest.contains(other[0]) {
                let i = choose|i: int| 0 <= i < rest.len() && rest[i] == other[0];
                assert(raw[i + 1] == other[0]);
            }
        }
        lemma_other_entity(rest, c, entity, other, to, k);
        let written_rest = replaced(rest, seq![c], entity);
        assert(raw.contains(raw[0]));
        if stands_at(raw, 0, seq![c]) {
            assert(raw.skip(1) == rest);
            assert(written == entity + written_rest);
            assert forall|i: int| 0 <= i < entity.len() implies !#[trigger] stands_at(
                entity + written_rest,
                i,
                other,
            ) by {
                if i == 0 {
                    lemma_stands_not(entity + written_rest, 0, other, k);
                } else {
                    assert(entity[i] != other[0]);
                    lemma_stands_not(entity + written_rest, i, other, 0);
                }
            }
            lemma_replaced_past(entity, written_rest, other, to);
        } else {
            let start = seq![raw[0]];
            assert(written == start + written_rest);
            assert forall|i: int| 0 <= i < start.len() implies !#[trigger] stands_at(
                start + written_rest,
                i,
                other,
            ) by {
                lemma_stands_not(start + written_rest, 0, other, 0);
            }
            lemma_replaced_past(start, written_rest, other, to);
        }
    }
}

/// What comes through a messenger is understood as if it had been pasted
/// itself: spaces and quotation marks may have become HTML entities, and a
/// backslash may have come to stand before each underscore.
pub proof fn law_messengers_are_understood(raw: Seq<char>, now: int)
    requires
        !raw.contains('&') && !raw.contains('\\'),
    ensures
        normalized(replaced(raw, " "@, "&#x20;"@), now) == normalized(raw, now),
        normalized(replaced(raw, " "@, "&#32;"@), now) == normalized(raw, now),
        normalized(replaced(raw, "\""@, "&quot;"@), now) == normalized(raw, now),
        normalized(replaced(raw, "_"@, "\\_"@), now) == normalized(raw, now),
{
    reveal_strlit(" ");
    reveal_strlit("\"");
    reveal_strlit("_");
    reveal_strlit("&#x20;");
    reveal_strlit("&#32;");
    reveal_strlit("&quot;");
    reveal_strlit("&amp;");
    reveal_strlit("\\_");
    let hex = "&#x20;"@;
    let dec = "&#32;"@;
    let quot = "&quot;"@;
    let amp = "&amp;"@;
    let esc = "\\_"@;
    assert(" "@ == seq![' ']);
    assert("\""@ == seq!['"']);
    assert("_"@ == seq!['_']);
    lemma_nothing_to_replace(raw, hex, " "@);
    lemma_nothing_to_replace(raw, dec, " "@);
    lemma_nothing_to_replace(raw, quot, "\""@);
    lemma_nothing_to_replace(raw, amp, "&"@);
    lemma_nothing_to_replace(raw, esc, "_"@);
    assert(cleaned(raw) == raw);
    // spaces in hexadecimal notation
    lemma_entity_undone(raw, ' ', hex);
    assert(cleaned(replaced(raw, " "@, hex)) == raw);
    // spaces in decimal notation
    lemma_other_entity(raw, ' ', dec, hex, " "@, 2);
    lemma_entity_undone(raw, ' ', dec);
    assert(cleaned(replaced(raw, " "@, dec)) == raw);
    // quotation marks
    lemma_other_entity(raw, '"', quot, hex, " "@, 1);
    lemma_other_entity(raw, '"', quot, dec, " "@, 1);
    lemma_entity_undone(raw, '"', quot);
    assert(cleaned(replaced(raw, "\""@, quot)) == raw);
    // underscores
    lemma_other_entity(raw, '_', esc, hex, " "@, 0);
    lemma_other_entity(raw, '_', esc, dec, " "@, 0);
    lemma_other_entity(raw, '_', esc, quot, "\""@, 0);
    lemma_other_entity(raw, '_', esc, amp, "&"@, 0);
    lemma_entity_undone(raw, '_', esc);
    assert(cleaned(replaced(raw, "_"@, esc)) == raw);
}

/// A character that does not open a word stays, and what follows is gone
/// through in the same way.
proof fn lemma_char_passes(c: char, rest: Seq<char>, from: Seq<char>, to: Seq<char>)
    requires
        from.len() > 0,
        c != from[0],
    ensures
        replaced(seq![c] + rest, from, to) == seq![c] + replaced(rest, from, to),
{
    let start = seq![c];
    assert forall|i: int| 0 <= i < start.len() implies !#[trigger] stands_at(
        start + rest,
        i,
        from,
    ) by {
        lemma_stands_not(start + rest, 0, from, 0);
    }
    lemma_replaced_past(start, rest, from, to);
}

/// A piece in which another word stands nowhere stays, and what follows is
/// gone through in the same way.
proof fn lemma_piece_passes(
    piece: Seq<char>,
    rest: Seq<char>,
    other: Seq<char>,
    to: Seq<char>,
    k: int,
)
    requires
        0 <= k < piece.len(),
        k < other.len(),
        piece[k] != other[k],
        forall|i: int| 1 <= i < piece.len() ==> #[trigger] piece[i] != other[0],
    ensures
        replaced(piece + rest, other, to) == piece + replaced(rest, other, to),
{
    assert forall|i: int| 0 <= i < piece.len() implies !#[trigger] stands_at(
        piece + rest,
        i,
        other,
    ) by {
        if i == 0 {
            lemma_stands_not(piece + rest, 0, other, k);
        } else {
            assert(piece[i] != other[0]);
            lemma_stands_not(piece + rest, i, other, 0);
        }
    }
    lemma_replaced_past(piece, rest, other, to);
}

/// A word at the start is replaced, and what follows is gone through in the
/// same way.
proof fn lemma_piece_is_replaced(piece: Seq<char>, rest: Seq<char>, to: Seq<char>)
    requires
        piece.len() > 0,
    ensures
        replaced(piece + rest, piece, to) == to + replaced(rest, piece, to),
{
    assert((piece + rest).subrange(0, piece.len() as int) == piece);
    assert((piece + rest).skip(piece.len() as int) == rest);
}

/// A word that stands at the start of what replacing gave stood there before,
/// where it does not hold what was put in.
proof fn lemma_start_was_there(
    text: Seq<char>,
    from: Seq<char>,
    to: Seq<char>,
    word: Seq<char>,
)
    requires
        from.len() > 0,
        to.len() == 1,
        !word.contains(to[0]),
        stands_at(replaced(text, from, to), 0, word),
    ensures
        stands_at(text, 0, word),
    decreases word.len(),
{
    let out = replaced(text, from, to);
    if word.len() == 0 {
        assert(text.subrange(0, 0) == word);
    } else {
        assert(out.subrange(0, word.len() as int)[0] == out[0]);
        assert(word.contains(word[0]));
        let rest = text.drop_first();
        assert(out == seq![text[0]] + replaced(rest, from, to));
        let tail = word.drop_first();
        assert(out.drop_first() == replaced(rest, from, to));
        assert(out.drop_first().subrange(0, tail.len() as int) == tail) by {
            assert(out.subrange(0, word.len() as int).drop_first() == out.subrange(
                1,
                word.len() as int,
            ));
        }
        assert(!tail.contains(to[0])) by {
            if tail.contains(to[0]) {
                let i = choose|i: int| 0 <= i < tail.len() && tail[i] == to[0];
                assert(word[i + 1] == to[0]);
            }
        }
        lemma_start_was_there(rest, from, to, tail);
        assert(text.subrange(0, word.len() as int) == word) by {
            assert(rest.subrange(0, tail.len() as int) == tail);
            assert forall|i: int| 0 <= i < word.len() implies text[i] == word[i] by {
                if i > 0 {
                    assert(rest.subrange(0, tail.len() as int)[i - 1] == tail[i - 1]);
                }
            }
        }
    }
}

/// A word with `c` before it stands at a start just where `c` and the word do.
proof fn lemma_after_first(c: char, rest: Seq<char>, word: Seq<char>)
    requires
        word.len() > 0,
        word[0] == c,
    ensures
        stands_at(seq![c] + rest, 0, word) <==> stands_at(rest, 0, word.drop_first()),
{
    let all = seq![c] + rest;
    let tail = word.drop_first();
    if stands_at(all, 0, word) {
        assert(all.subrange(0, word.len() as int).drop_first() == rest.subrange(
            0,
            tail.len() as int,
        ));
    }
    if stands_at(rest, 0, tail) {
        assert(seq![c] + rest.subrange(0, tail.len() as int) == all.subrange(
            0,
            word.len() as int,
        ));
        assert(seq![c] + tail == word);
    }
}

/// Cleaning goes through a text piece by piece. Each of the four entities and
/// the escaped underscore becomes the character it stands for. Any other
/// character stays, also an ampersand or a backslash that opens none of them.
pub proof fn law_cleaning_goes_piece_by_piece(rest: Seq<char>, c: char)
    ensures
        cleaned(Seq::empty()) == Seq::<char>::empty(),
        c != '&' && c != '\\' ==> cleaned(seq![c] + rest) == seq![c] + cleaned(rest),
        cleaned("&#x20;"@ + rest) == seq![' '] + cleaned(rest),
        cleaned("&#32;"@ + rest) == seq![' '] + cleaned(rest),
        cleaned("&quot;"@ + rest) == seq!['"'] + cleaned(rest),
        cleaned("&amp;"@ + rest) == seq!['&'] + cleaned(rest),
        cleaned("\\_"@ + rest) == seq!['_'] + cleaned(rest),
        !stands_at(seq!['&'] + rest, 0, "&#x20;"@) && !stands_at(seq!['&'] + rest, 0, "&#32;"@)
            && !stands_at(seq!['&'] + rest, 0, "&quot;"@) && !stands_at(
            seq!['&'] + rest,
            0,
            "&amp;"@,
        ) ==> cleaned(seq!['&'] + rest) == seq!['&'] + cleaned(rest),
        !stands_at(seq!['\\'] + rest, 0, "\\_"@) ==> cleaned(seq!['\\'] + rest) == seq!['\\'] + cleaned(
            rest,
        ),
{
    reveal_strlit(" ");
    reveal_strlit("\"");
    reveal_strlit("&");
    reveal_strlit("_");
    reveal_strlit("&#x20;");
    reveal_strlit("&#32;");
    reveal_strlit("&quot;");
    reveal_strlit("&amp;");
    reveal_strlit("\\_");
    let hex = "&#x20;"@;
    let dec = "&#32;"@;
    let quot = "&quot;"@;
    let amp = "&amp;"@;
    let esc = "\\_"@;
    assert(" "@ == seq![' ']);
    assert("\""@ == seq!['"']);
    assert("&"@ == seq!['&']);
    assert("_"@ == seq!['_']);
    let r1 = replaced(rest, hex, " "@);
    let r2 = replaced(r1, dec, " "@);
    let r3 = replaced(r2, quot, "\""@);
    let r4 = replaced(r3, amp, "&"@);
    // any other character
    if c != '&' && c != '\\' {
        lemma_char_passes(c, rest, hex, " "@);
        lemma_char_passes(c, r1, dec, " "@);
        lemma_char_passes(c, r2, quot, "\""@);
        lemma_char_passes(c, r3, amp, "&"@);
        lemma_char_passes(c, r4, esc, "_"@);
    }
    // spaces
    lemma_piece_is_replaced(hex, rest, " "@);
    lemma_char_passes(' ', r1, dec, " "@);
    lemma_piece_passes(dec, rest, hex, " "@, 2);
    lemma_piece_is_replaced(dec, r1, " "@);
    lemma_char_passes(' ', r2, quot, "\""@);
    lemma_char_passes(' ', r3, amp, "&"@);
    lemma_char_passes(' ', r4, esc, "_"@);
    assert(cleaned(hex + rest) == seq![' '] + cleaned(rest));
    assert(cleaned(dec + rest) == seq![' '] + cleaned(rest));
    // quotation marks
    lemma_piece_passes(quot, rest, hex, " "@, 1);
    lemma_piece_passes(quot, r1, dec, " "@, 1);
    lemma_piece_is_replaced(quot, r2, "\""@);
    lemma_char_passes('"', r3, amp, "&"@);
    lemma_char_passes('"', r4, esc, "_"@);
    assert(cleaned(quot + rest) == seq!['"'] + cleaned(rest));
    // ampersands
    lemma_piece_passes(amp, rest, hex, " "@, 1);
    lemma_piece_passes(amp, r1, dec, " "@, 1);
    lemma_piece_passes(amp, r2, quot, "\""@, 1);
    lemma_piece_is_replaced(amp, r3, "&"@);
    lemma_char_passes('&', r4, esc, "_"@);
    assert(cleaned(amp + rest) == seq!['&'] + cleaned(rest));
    // escaped underscores
    lemma_piece_passes(esc, rest, hex, " "@, 0);
    lemma_piece_passes(esc, r1, dec, " "@, 0);
    lemma_piece_passes(esc, r2, quot, "\""@, 0);
    lemma_piece_passes(esc, r3, amp, "&"@, 0);
    lemma_piece_is_replaced(esc, r4, "_"@);
    assert(cleaned(esc + rest) == seq!['_'] + cleaned(rest));
    // ampersands that open nothing
    let a = seq!['&'];
    if !stands_at(a + rest, 0, hex) && !stands_at(a + rest, 0, dec) && !stands_at(a + rest, 0, quot)
        && !stands_at(a + rest, 0, amp) {
        lemma_after_first('&', rest, dec);
        lemma_after_first('&', r1, dec);
        lemma_after_first('&', rest, quot);
        lemma_after_first('&', r2, quot);
        lemma_after_first('&', rest, amp);
        lemma_after_first('&', r3, amp);
        if stands_at(r1, 0, dec.drop_first()) {
            lemma_start_was_there(rest, hex, " "@, dec.drop_first());
        }
        if stands_at(r2, 0, quot.drop_first()) {
            lemma_start_was_there(r1, dec, " "@, quot.drop_first());
            lemma_start_was_there(rest, hex, " "@, quot.drop_first());
        }
        if stands_at(r3, 0, amp.drop_first()) {
            lemma_start_was_there(r2, quot, "\""@, amp.drop_first());
            lemma_start_was_there(r1, dec, " "@, amp.drop_first());
            lemma_start_was_there(rest, hex, " "@, amp.drop_first());
        }
        lemma_lone_passes('&', rest, hex, " "@);
        lemma_lone_passes('&', r1, dec, " "@);
        lemma_lone_passes('&', r2, quot, "\""@);
        lemma_lone_passes('&', r3, amp, "&"@);
        assert(cleaned(a + rest) == a + cleaned(rest));
    }
    // backslashes that escape nothing
    let b = seq!['\\'];
    if !stands_at(b + rest, 0, esc) {
        lemma_after_first('\\', rest, esc);
        lemma_after_first('\\', r4, esc);
        if stands_at(r4, 0, esc.drop_first()) {
            lemma_start_was_there(r3, amp, "&"@, esc.drop_first());
            lemma_start_was_there(r2, quot, "\""@, esc.drop_first());
            lemma_start_was_there(r1, dec, " "@, esc.drop_first());
            lemma_start_was_there(rest, hex, " "@, esc.drop_first());
        }
        lemma_char_passes('\\', rest, hex, " "@);
        lemma_char_passes('\\', r1, dec, " "@);
        lemma_char_passes('\\', r2, quot, "\""@);
        lemma_char_passes('\\', r3, amp, "&"@);
        lemma_lone_passes('\\', r4, esc, "_"@);
        assert(cleaned(b + rest) == b + cleaned(rest));
    }
}

/// A character at which a word does not stand stays.
proof fn lemma_lone_passes(c: char, rest: Seq<char>, from: Seq<char>, to: Seq<char>)
    requires
        from.len() > 0,
        !stands_at(seq![c] + rest, 0, from),
    ensures
        replaced(seq![c] + rest, from, to) == seq![c] + replaced(rest, from, to),
{
    let start = seq![c];
    assert forall|i: int| 0 <= i < start.len() implies !#[trigger] stands_at(
        start + rest,
        i,
        from,
    ) by {}
    lemma_replaced_past(start, rest, from, to);
}

/// A cookie belongs to KeyCrop where its domain is that of KeyCrop, in any
/// case and with any number of dots before it.
pub proof fn law_domain(cookie: Tree)
    ensures
        of_keycrop(cookie) <==> (cookie.get("domain"@) matches Some(Tree::Text(domain)) && exists|
            dots: int,
        |
            0 <= dots <= domain.len() && small_letters(#[trigger] domain.skip(dots))
                == "keycrop.net"@ && (forall|i: int|
                0 <= i < dots ==> #[trigger] domain[i] == '.') && (dots < domain.len()
                ==> domain[dots] != '.')),
{
    reveal_strlit("");
    reveal_strlit("keycrop.net");
    let none = Seq::<char>::empty();
    assert(""@ == none);
    assert(without_leading(none, '.') == none);
    assert(small_letters(none).len() == 0);
    if let Some(Tree::Text(domain)) = cookie.get("domain"@) {
        law_without_leading(domain, '.');
        let from = choose|from: int|
            0 <= from <= domain.len() && #[trigger] domain.skip(from) == without_leading(
                domain,
                '.',
            ) && (forall|i: int| 0 <= i < from ==> #[trigger] domain[i] == '.') && (from
                < domain.len() ==> domain[from] != '.');
        if of_keycrop(cookie) {
            assert(small_letters(domain.skip(from)) == "keycrop.net"@);
        }
        if exists|dots: int|
            0 <= dots <= domain.len() && small_letters(#[trigger] domain.skip(dots))
                == "keycrop.net"@ && (forall|i: int|
                0 <= i < dots ==> #[trigger] domain[i] == '.') && (dots < domain.len()
                ==> domain[dots] != '.') {
            let dots = choose|dots: int|
                0 <= dots <= domain.len() && small_letters(#[trigger] domain.skip(dots))
                    == "keycrop.net"@ && (forall|i: int|
                    0 <= i < dots ==> #[trigger] domain[i] == '.') && (dots < domain.len()
                    ==> domain[dots] != '.');
            if dots < from {
                assert(domain[dots] == '.');
            } else if from < dots {
                assert(domain[from] == '.');
            }
        }
    }
}

/// A cookie has expired where its date is a number that is at most the time.
/// A date that is no number, and no date at all, never expire.
pub proof fn law_expiry(date: Option<Tree>, unsigned: u64, negative: i64, bits: u64, now: int)
    ensures
        expired(Some(Tree::Number(Num::Unsigned(unsigned))), now) <==> unsigned <= now,
        expired(Some(Tree::Number(Num::Negative(negative))), now) <==> negative <= now,
        expired(Some(Tree::Number(Num::Double(bits))), now) <==> at_most(bits, now),
        !(date matches Some(Tree::Number(_))) ==> !expired(date, now),
{
}

/// A cookie gives a pair just where it belongs to KeyCrop, has not expired,
/// has a name and a value, and neither holds a character that would end the
/// pair or the line. The pair is the name and the value as they are.
pub proof fn law_pair(cookie: Tree, name: Seq<char>, value: Seq<char>, now: int)
    ensures
        cookie.get("name"@) == Some(Tree::Text(name)) && cookie.get("value"@) == Some(
            Tree::Text(value),
        ) ==> pair_of(cookie, now) == if of_keycrop(cookie) && !expired(
            cookie.get("expirationDate"@),
            now,
        ) && name.len() > 0 && (forall|i: int|
            0 <= i < name.len() ==> !(#[trigger] name[i] == ';' || name[i] == '\n' || name[i]
                == '\r' || name[i] == '=')) && (forall|i: int|
            0 <= i < value.len() ==> !(#[trigger] value[i] == ';' || value[i] == '\n' || value[i]
                == '\r')) {
            Some(name + "="@ + value)
        } else {
            None
        },
        !(cookie.get("name"@) matches Some(Tree::Text(_))) || !(cookie.get("value"@) matches Some(
            Tree::Text(_),
        )) ==> pair_of(cookie, now) is None,
{
    if name.contains(';') || name.contains('\n') || name.contains('\r') || name.contains('=') {
        let i = choose|i: int|
            0 <= i < name.len() && (name[i] == ';' || name[i] == '\n' || name[i] == '\r' || name[i]
                == '=');
        assert(name[i] == ';' || name[i] == '\n' || name[i] == '\r' || name[i] == '=');
    }
    if value.contains(';') || value.contains('\n') || value.contains('\r') {
        let i = choose|i: int|
            0 <= i < value.len() && (value[i] == ';' || value[i] == '\n' || value[i] == '\r');
        assert(value[i] == ';' || value[i] == '\n' || value[i] == '\r');
    }
}

/// No cookie of an export is passed over, and their order is kept: the pairs
/// of two lists one after the other are the pairs of each. One cookie gives
/// its pair or nothing.
pub proof fn law_pairs(a: Seq<Tree>, b: Seq<Tree>, cookie: Tree, now: int)
    ensures
        pairs_of(a + b, now) == pairs_of(a, now) + pairs_of(b, now),
        pairs_of(seq![cookie], now) == match pair_of(cookie, now) {
            Some(pair) => seq![pair],
            None => Seq::empty(),
        },
        pairs_of(Seq::empty(), now) == Seq::<Seq<char>>::empty(),
    decreases b.len(),
{
    let one = seq![cookie];
    assert(one.drop_last() == Seq::<Tree>::empty());
    assert(pairs_of(one.drop_last(), now) == Seq::<Seq<char>>::empty());
    assert(one.last() == cookie);
    if let Some(pair) = pair_of(cookie, now) {
        assert(Seq::<Seq<char>>::empty().push(pair) == seq![pair]);
    }
    if b.len() == 0 {
        assert(a + b == a);
        assert(pairs_of(a, now) + Seq::<Seq<char>>::empty() == pairs_of(a, now));
    } else {
        law_pairs(a, b.drop_last(), cookie, now);
        assert((a + b).drop_last() == a + b.drop_last());
        assert((a + b).last() == b.last());
        if let Some(pair) = pair_of(b.last(), now) {
            assert(pairs_of(a, now) + pairs_of(b.drop_last(), now).push(pair) == (pairs_of(a, now)
                + pairs_of(b.drop_last(), now)).push(pair));
        }
    }
}

/// No live cookie is lost: the pair of every exported cookie that has one is
/// among the pairs, wherever the cookie stands.
pub proof fn law_no_live_cookie_is_lost(cookies: Seq<Tree>, i: int, pair: Seq<char>, now: int)
    requires
        0 <= i < cookies.len(),
        pair_of(cookies[i], now) == Some(pair),
    ensures
        pairs_of(cookies, now).contains(pair),
{
    let a = cookies.take(i);
    let one = seq![cookies[i]];
    let b = cookies.skip(i + 1);
    assert(a + one + b == cookies);
    law_pairs(a + one, b, cookies[i], now);
    law_pairs(a, one, cookies[i], now);
    let n = pairs_of(a, now).len() as int;
    assert(pairs_of(cookies, now)[n] == pair);
}

/// An export becomes the pairs of its cookies, joined. It is refused where
/// there are none, and where it cannot be read, with the reason.
pub proof fn law_export(cookies: Seq<Tree>, message: Seq<char>, now: int)
    ensures
        pairs_of(cookies, now).len() > 0 ==> export_value(Ok(Tree::List(cookies)), now) == Ok::<
            Seq<char>,
            Seq<char>,
        >(joined(pairs_of(cookies, now), "; "@)),
        pairs_of(cookies, now).len() == 0 ==> export_value(Ok(Tree::List(cookies)), now) == Err::<
            Seq<char>,
            Seq<char>,
        >("В экспорте нет действующих cookies для keycrop.net"@),
        export_value(Err(message), now) == Err::<Seq<char>, Seq<char>>(
            "Не удалось прочитать экспорт EditThisCookie: "@ + message,
        ),
{
}

/// A pasted header is taken without its name and the white space around it. It
/// is taken just where what is left is one line and holds a pair.
pub proof fn law_header(text: Seq<char>, rest: Seq<char>)
    ensures
        after_name("Cookie:"@ + rest) == rest,
        after_name("cookie:"@ + rest) == rest,
        !stands_at(text, 0, "Cookie:"@) && !stands_at(text, 0, "cookie:"@) ==> after_name(text)
            == text,
        header_value(text) == if one_line(trimmed(after_name(text))) {
            Ok::<Seq<char>, Seq<char>>(trimmed(after_name(text)))
        } else {
            Err("Вставь значение заголовка Cookie целиком, без переносов строк"@)
        },
        one_line(text) <==> (exists|i: int| 0 <= i < text.len() && #[trigger] text[i] == '=') && (
        forall|i: int| 0 <= i < text.len() ==> #[trigger] text[i] != '\n' && text[i] != '\r'),
{
    reveal_strlit("Cookie:");
    reveal_strlit("cookie:");
    let a = "Cookie:"@ + rest;
    let b = "cookie:"@ + rest;
    assert(a.subrange(0, 7) == "Cookie:"@);
    assert(a.skip(7) == rest);
    assert(b.subrange(0, 7) == "cookie:"@);
    assert(b.skip(7) == rest);
    lemma_stands_not(b, 0, "Cookie:"@, 0);
    if text.contains('\n') || text.contains('\r') {
        let i = choose|i: int| 0 <= i < text.len() && (text[i] == '\n' || text[i] == '\r');
        assert(text[i] == '\n' || text[i] == '\r');
    }
    if exists|i: int| 0 <= i < text.len() && #[trigger] text[i] == '=' {
        let i = choose|i: int| 0 <= i < text.len() && #[trigger] text[i] == '=';
        assert(text.contains('='));
    }
}

/// What is pasted is cleaned and trimmed. It is an export just where it then
/// opens with a bracket, and else a header.
pub proof fn law_pasted_cookie(raw: Seq<char>, now: int)
    ensures
        trimmed(cleaned(raw)).len() > 0 && trimmed(cleaned(raw))[0] == '[' ==> normalized(raw, now)
            == export_value(parsed_text(trimmed(cleaned(raw))), now),
        trimmed(cleaned(raw)).len() == 0 || trimmed(cleaned(raw))[0] != '[' ==> normalized(raw, now)
            == header_value(trimmed(cleaned(raw))),
{
}

/// The model of a result is its text, or the text of its message.
pub proof fn law_text_outcome(text: String)
    ensures
        text_outcome(Ok(text)) == Ok::<Seq<char>, Seq<char>>(text@),
        text_outcome(Err(text)) == Err::<Seq<char>, Seq<char>>(text@),
{
}

} // verus!
