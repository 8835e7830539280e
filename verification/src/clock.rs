//! The clock and the source of fresh identifiers.

use vstd::arithmetic::div_mod::{lemma_div_denominator, lemma_fundamental_div_mod};
use vstd::arithmetic::power::{lemma_pow0, lemma_pow1, lemma_pow_adds, lemma_pow_positive, pow};
use vstd::prelude::*;

verus! {

/// `chrono::Utc::now` and `DateTime::timestamp`: the seconds since the start
/// of 1970. It reads no earlier time, for `chrono` panics where the system's
/// clock stands before 1970, and no later one than `chrono` can represent.
#[verifier::external_body]
pub(crate) fn unix_time() -> (seconds: i64)
    ensures
        0 <= seconds < 0x20_0000_0000_0000,
{
    chrono::Utc::now().timestamp()
}

/// Whether a character is a decimal digit.
pub open spec fn is_digit(c: char) -> bool {
    '0' <= c <= '9'
}

/// Whether a text has the form of a UTC time by RFC 3339: a year of at least
/// four characters, month, day, the letter T, hours, minutes, seconds, perhaps
/// a fraction, and the offset of UTC.
pub open spec fn is_utc_time(text: Seq<char>) -> bool {
    &&& text.len() >= 25
    &&& text.skip(text.len() - 6) == "+00:00"@
    &&& forall|i: int|
        0 <= i < text.len() ==> is_digit(#[trigger] text[i]) || text[i] == '-' || text[i] == '+'
            || text[i] == ':' || text[i] == '.' || text[i] == 'T'
    &&& exists|year: int|
        4 <= year <= text.len() - 21 && #[trigger] text[year] == '-' && text[year + 3] == '-'
            && text[year + 6] == 'T' && text[year + 9] == ':' && text[year + 12] == ':'
}

/// `chrono::Utc::now` and `DateTime::to_rfc3339`: the time as text, in the
/// form of RFC 3339. It panics where the system's clock stands before 1970.
#[verifier::external_body]
pub(crate) fn rfc3339_time() -> (text: String)
    ensures
        is_utc_time(text@),
{
    chrono::Utc::now().to_rfc3339()
}

/// Whether a text has the form of a time stamp for a file name: a year of at
/// least four characters, which has a sign where it has more than four digits,
/// then month, day, hours, minutes, seconds and milliseconds, with hyphens and
/// one underscore between them.
pub open spec fn is_stamp(text: Seq<char>) -> bool {
    let n = text.len();
    &&& n >= 23
    &&& text[n - 19] == '-' && text[n - 16] == '-' && text[n - 13] == '_'
    &&& text[n - 10] == '-' && text[n - 7] == '-' && text[n - 4] == '-'
    &&& forall|i: int|
        0 <= i < n ==> is_digit(#[trigger] text[i]) || i == n - 19 || i == n - 16 || i == n - 13 || i
            == n - 10 || i == n - 7 || i == n - 4 || (i == 0 && text[i] == '+')
}

/// `chrono::Utc::now` and `DateTime::format` with year, month, day, hour,
/// minute, second and milliseconds: the time in that form. It panics where the
/// system's clock stands before 1970.
#[verifier::external_body]
pub(crate) fn stamp_time() -> (text: String)
    ensures
        is_stamp(text@),
{
    chrono::Utc::now().format("%Y-%m-%d_%H-%M-%S-%3f").to_string()
}

/// Whether a UUID is one of version 4 in the variant of RFC 9562.
pub open spec fn is_random_uuid(id: u128) -> bool {
    (id / 0x1000_0000_0000_0000_0000) % 16 == 4 && (id / 0x4000_0000_0000_0000) % 4 == 2
}

/// `uuid::Uuid::new_v4` and `Uuid::as_u128`: some UUID of version 4. Which one
/// is up to the system's source of random numbers. It panics where the system
/// has none.
#[verifier::external_body]
pub(crate) fn random_uuid() -> (id: u128)
    ensures
        is_random_uuid(id),
{
    uuid::Uuid::new_v4().as_u128()
}

/// The hexadecimal digit, in small letters, with the value `n`.
pub open spec fn hex_digit(n: int) -> char {
    if n < 10 {
        ('0' as u32 + n) as char
    } else {
        ('a' as u32 + n - 10) as char
    }
}

/// The digit of a UUID that is number `k` from the left, of 32.
pub open spec fn uuid_digit(id: u128, k: int) -> char {
    hex_digit((id as int / pow(16, (31 - k) as nat)) % 16)
}

/// A UUID in its usual notation: 8, 4, 4, 4 and 12 hexadecimal digits with
/// hyphens between them.
pub open spec fn uuid_notation(id: u128) -> Seq<char> {
    Seq::new(
        36,
        |i: int|
            if i < 8 {
                uuid_digit(id, i)
            } else if i == 8 || i == 13 || i == 18 || i == 23 {
                '-'
            } else if i < 13 {
                uuid_digit(id, i - 1)
            } else if i < 18 {
                uuid_digit(id, i - 2)
            } else if i < 23 {
                uuid_digit(id, i - 3)
            } else {
                uuid_digit(id, i - 4)
            },
    )
}

/// What is left of a UUID when its last `k` digits are cut off.
spec fn head(id: u128, k: nat) -> int {
    id as int / pow(16, k)
}

/// One more digit completes a head.
proof fn lemma_head(id: u128, k: nat)
    ensures
        head(id, k) == 16 * head(id, k + 1) + head(id, k) % 16,
{
    lemma_pow_positive(16, k);
    lemma_pow_adds(16, k, 1);
    lemma_pow1(16);
    lemma_div_denominator(id as int, pow(16, k), 16);
    lemma_fundamental_div_mod(head(id, k), 16);
}

/// Heads are equal where the digits of the UUIDs are.
proof fn lemma_same_head(x: u128, y: u128, k: nat)
    requires
        k <= 32,
        forall|i: int| 0 <= i < 32 ==> uuid_digit(x, i) == #[trigger] uuid_digit(y, i),
    ensures
        head(x, k) == head(y, k),
    decreases 32 - k,
{
    if k == 32 {
        assert(pow(16, 32) == 0x1_0000_0000_0000_0000_0000_0000_0000_0000) by {
            lemma_pow1(16);
            lemma_pow_adds(16, 1, 1);
            lemma_pow_adds(16, 2, 2);
            lemma_pow_adds(16, 4, 4);
            lemma_pow_adds(16, 8, 8);
            lemma_pow_adds(16, 16, 16);
            let a = pow(16, 2);
            let b = pow(16, 4);
            let c = pow(16, 8);
            let d = pow(16, 16);
            assert(a == 0x100);
            assert(a * a == 0x1_0000) by (nonlinear_arith)
                requires
                    a == 0x100,
            ;
            assert(b * b == 0x1_0000_0000) by (nonlinear_arith)
                requires
                    b == 0x1_0000,
            ;
            assert(c * c == 0x1_0000_0000_0000_0000) by (nonlinear_arith)
                requires
                    c == 0x1_0000_0000,
            ;
            assert(d * d == 0x1_0000_0000_0000_0000_0000_0000_0000_0000) by (nonlinear_arith)
                requires
                    d == 0x1_0000_0000_0000_0000,
            ;
        }
    } else {
        lemma_same_head(x, y, k + 1);
        lemma_head(x, k);
        lemma_head(y, k);
        assert(uuid_digit(x, 31 - k) == uuid_digit(y, 31 - k));
    }
}

/// Two UUIDs have the same notation only if they are the same.
pub proof fn law_notation_tells_uuids_apart(a: u128, b: u128)
    ensures
        uuid_notation(a) == uuid_notation(b) <==> a == b,
{
    if uuid_notation(a) == uuid_notation(b) {
        assert forall|i: int| 0 <= i < 32 implies uuid_digit(a, i) == #[trigger] uuid_digit(
            b,
            i,
        ) by {
            let at = if i < 8 {
                i
            } else if i < 12 {
                i + 1
            } else if i < 16 {
                i + 2
            } else if i < 20 {
                i + 3
            } else {
                i + 4
            };
            assert(uuid_notation(a)[at] == uuid_notation(b)[at]);
        }
        lemma_same_head(a, b, 0);
        lemma_pow0(16);
    }
}

/// `uuid::Uuid::from_u128` and the `Display` of `uuid::Uuid`: the usual
/// notation.
#[verifier::external_body]
pub(crate) fn uuid_text(id: u128) -> (text: String)
    ensures
        text@ == uuid_notation(id),
{
    uuid::Uuid::from_u128(id).to_string()
}

} // verus!
