//! Identifiers as text.
use vstd::prelude::*;

use crate::model::Uuid;

verus! {

/// The hexadecimal digit with value `n`, a small letter from ten on.
pub open spec fn hex_char(n: int) -> char {
    if n < 10 {
        ('0' as u8 + n) as char
    } else {
        ('a' as u8 + n - 10) as char
    }
}

/// Digit `k` of the thirty-two hexadecimal digits of an identifier, the highest first.
pub open spec fn uuid_digit(id: Uuid, k: int) -> int {
    id as int / vstd::arithmetic::power::pow(16, (31 - k) as nat) % 16
}

/// Which digit stands at place `i` of the text of an identifier.
pub open spec fn digit_at(i: int) -> int {
    if i < 8 {
        i
    } else if i < 13 {
        i - 1
    } else if i < 18 {
        i - 2
    } else if i < 23 {
        i - 3
    } else {
        i - 4
    }
}

/// An identifier as text: its digits in groups of eight, four, four, four and twelve, with hyphens
/// between them.
pub open spec fn uuid_chars(id: Uuid) -> Seq<char> {
    Seq::new(
        36,
        |i: int|
            if i == 8 || i == 13 || i == 18 || i == 23 {
                '-'
            } else {
                hex_char(uuid_digit(id, digit_at(i)))
            },
    )
}

/// `uuid::Uuid::to_string` of the identifier with the given number (`from_u128`): its hexadecimal
/// digits, small letters, hyphenated.
#[verifier::external_body]
pub(crate) fn uuid_text(id: Uuid) -> (r: String)
    ensures
        r@ == uuid_chars(id),
{
    uuid::Uuid::from_u128(id).to_string()
}

/// Whether an identifier is marked as a random one: four bits give the version, two the variant.
pub open spec fn is_random_id(id: Uuid) -> bool {
    id as int / vstd::arithmetic::power::pow(16, 19) % 16 == 4 && id as int
        / vstd::arithmetic::power::pow(4, 31) % 4 == 2
}

/// `uuid::Uuid::new_v4`, as a number: a random identifier. Of its bits only those that mark it as
/// random are known.
#[verifier::external_body]
fn uuid_new_v4() -> (r: Uuid)
    ensures
        is_random_id(r),
{
    uuid::Uuid::new_v4().as_u128()
}

/// A new random identifier.
pub fn new_id() -> (r: Uuid)
    ensures
        is_random_id(r),
{
    uuid_new_v4()
}

/// A digit is written as itself, or as one of the small letters that follow nine.
pub proof fn law_written_digits(n: int)
    requires
        0 <= n < 16,
    ensures
        hex_char(n) == "0123456789abcdef"@[n],
{
    reveal_strlit("0123456789abcdef");
}

/// An identifier is written in groups of eight, four, four, four and twelve digits, from the highest
/// digit to the lowest: the last is the rest by sixteen, and each other stands where the next one of a
/// sixteenth stands.
pub proof fn law_written_identifier(id: Uuid, k: int)
    ensures
        uuid_chars(id).len() == 36,
        uuid_chars(id)[8] == '-' && uuid_chars(id)[13] == '-' && uuid_chars(id)[18] == '-' && uuid_chars(
            id,
        )[23] == '-',
        uuid_chars(id)[35] == hex_char(id as int % 16),
        0 <= k < 31 ==> uuid_digit(id, k) == uuid_digit((id as int / 16) as Uuid, k + 1),
        forall|i: int| 0 <= i < 8 ==> #[trigger] uuid_chars(id)[i] == hex_char(uuid_digit(id, i)),
        forall|i: int| 9 <= i < 13 ==> #[trigger] uuid_chars(id)[i] == hex_char(uuid_digit(id, i - 1)),
        forall|i: int| 14 <= i < 18 ==> #[trigger] uuid_chars(id)[i] == hex_char(uuid_digit(id, i - 2)),
        forall|i: int| 19 <= i < 23 ==> #[trigger] uuid_chars(id)[i] == hex_char(uuid_digit(id, i - 3)),
        forall|i: int| 24 <= i < 36 ==> #[trigger] uuid_chars(id)[i] == hex_char(uuid_digit(id, i - 4)),
{
    vstd::arithmetic::power::lemma_pow0(16);
    assert(uuid_digit(id, 31) == id as int % 16);
    if 0 <= k < 31 {
        let above = (30 - k) as nat;
        let p = vstd::arithmetic::power::pow(16, above);
        vstd::arithmetic::power::lemma_pow_positive(16, above);
        vstd::arithmetic::power::lemma_pow_adds(16, 1, above);
        vstd::arithmetic::power::lemma_pow1(16);
        assert(vstd::arithmetic::power::pow(16, (31 - k) as nat) == 16 * p);
        vstd::arithmetic::div_mod::lemma_div_denominator(id as int, 16, p);
        assert(id as int / (16 * p) == (id as int / 16) / p);
    }
}

} // verus!
