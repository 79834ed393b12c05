//! Identifiers as 128-bit integers, with their text form left to `uuid`.

use uuid::Uuid;
use vstd::arithmetic::div_mod::{lemma_basic_div, lemma_div_denominator, lemma_fundamental_div_mod};
use vstd::arithmetic::power::{lemma_pow_positive, pow};
use vstd::prelude::*;

verus! {

/// The lower-case hexadecimal digit for `d`.
pub open spec fn hex_digit(d: int) -> char {
    seq!['0', '1', '2', '3', '4', '5', '6', '7', '8', '9', 'a', 'b', 'c', 'd', 'e', 'f'][d]
}

/// The `k`-th of the 32 hexadecimal digits of `id`, the most significant one first.
pub open spec fn nibble(id: u128, k: int) -> int {
    (id as int / pow(16, (31 - k) as nat)) % 16
}

/// The text form of an identifier: 32 hexadecimal digits in groups of 8, 4, 4, 4 and 12, with
/// hyphens between the groups.
pub open spec fn id_text(id: u128) -> Seq<char> {
    Seq::new(
        36,
        |i: int|
            if i == 8 || i == 13 || i == 18 || i == 23 {
                '-'
            } else if i < 8 {
                hex_digit(nibble(id, i))
            } else if i < 13 {
                hex_digit(nibble(id, i - 1))
            } else if i < 18 {
                hex_digit(nibble(id, i - 2))
            } else if i < 23 {
                hex_digit(nibble(id, i - 3))
            } else {
                hex_digit(nibble(id, i - 4))
            },
    )
}

/// Whether `id` is laid out as a random identifier: version 4, RFC 9562 variant.
pub open spec fn is_random_id(id: u128) -> bool {
    &&& (id as int / pow(2, 76)) % 16 == 4
    &&& (id as int / pow(2, 62)) % 4 == 2
}

/// Whether `id` was drawn. What makes an identifier one is not shown outside this module: only
/// a draw is known to be one.
pub closed spec fn is_drawn_id(id: u128) -> bool {
    is_random_id(id)
}

/// What `uuid::Uuid::parse_str` reads, as an integer; `None` where it refuses the text.
pub uninterp spec fn parsed_id(text: Seq<char>) -> Option<u128>;

/// The error of `uuid::Uuid::parse_str`.
#[verifier::external_type_specification]
#[verifier::external_body]
pub struct ExUuidError(uuid::Error);

/// Draws an identifier with `uuid::Uuid::new_v4`.
///
/// Nothing is claimed of its value but that it was drawn, and the version and variant bits,
/// which are fixed.
#[verifier::external_body]
pub(crate) fn random_id() -> (id: u128)
    ensures
        is_drawn_id(id),
        is_random_id(id),
{
    Uuid::new_v4().as_u128()
}

/// Writes `id` with the `Display` of `uuid::Uuid`.
///
/// The claim: the text is the hyphenated lower-case form, and `uuid::Uuid::parse_str` reads the
/// same identifier back from it.
#[verifier::external_body]
pub(crate) fn format_id(id: u128) -> (text: String)
    ensures
        text@ == id_text(id),
        parsed_id(text@) == Some(id),
{
    Uuid::from_u128(id).to_string()
}

/// Reads `text` with `uuid::Uuid::parse_str`.
///
/// The claim: what is read, or that it is refused, depends on the text alone.
#[verifier::external_body]
pub(crate) fn parse_id(text: &str) -> (r: Result<u128, uuid::Error>)
    ensures
        r is Ok <==> parsed_id(text@) is Some,
        r matches Ok(id) ==> parsed_id(text@) == Some(id),
{
    Ok(Uuid::parse_str(text)?.as_u128())
}

/// The text form has 36 characters: hyphens in four places, and hexadecimal digits, in lower
/// case, in all others.
pub proof fn law_id_text_is_hyphenated(id: u128, i: int)
    requires
        0 <= i < 36,
    ensures
        id_text(id).len() == 36,
        if i == 8 || i == 13 || i == 18 || i == 23 {
            id_text(id)[i] == '-'
        } else {
            '0' <= id_text(id)[i] <= '9' || 'a' <= id_text(id)[i] <= 'f'
        },
{
}

/// No two digits look the same.
proof fn lemma_digits_differ(c: int, d: int)
    requires
        0 <= c < 16,
        0 <= d < 16,
        hex_digit(c) == hex_digit(d),
    ensures
        c == d,
{
    let digits =
        seq!['0', '1', '2', '3', '4', '5', '6', '7', '8', '9', 'a', 'b', 'c', 'd', 'e', 'f'];
    assert(digits[c] == digits[d]);
}

/// Where the digits from the most significant one to the `k`-th agree, so do the identifiers as
/// far as these digits go.
proof fn lemma_digits_agree(a: u128, b: u128, k: int)
    requires
        0 <= k <= 32,
        forall|j: int| 0 <= j < k ==> #[trigger] nibble(a, j) == nibble(b, j),
    ensures
        a as int / pow(16, (32 - k) as nat) == b as int / pow(16, (32 - k) as nat),
    decreases k,
{
    if k == 0 {
        assert(pow(16, 32) == 0x1_0000_0000_0000_0000_0000_0000_0000_0000int) by {
            reveal_with_fuel(pow, 33);
        }
        lemma_basic_div(a as int, pow(16, 32));
        lemma_basic_div(b as int, pow(16, 32));
    } else {
        lemma_digits_agree(a, b, k - 1);
        let p = pow(16, (32 - k) as nat);
        lemma_pow_positive(16, (32 - k) as nat);
        assert(pow(16, (33 - k) as nat) == p * 16) by {
            reveal_with_fuel(pow, 2);
            assert(16 * p == p * 16);
        }
        lemma_div_denominator(a as int, p, 16);
        lemma_div_denominator(b as int, p, 16);
        lemma_fundamental_div_mod(a as int / p, 16);
        lemma_fundamental_div_mod(b as int / p, 16);
        assert(nibble(a, k - 1) == nibble(b, k - 1));
    }
}

/// No two identifiers have the same text form.
pub proof fn law_id_text_is_injective(a: u128, b: u128)
    requires
        id_text(a) == id_text(b),
    ensures
        a == b,
{
    assert forall|j: int| 0 <= j < 32 implies #[trigger] nibble(a, j) == nibble(b, j) by {
        let i = if j < 8 {
            j
        } else if j < 12 {
            j + 1
        } else if j < 16 {
            j + 2
        } else if j < 20 {
            j + 3
        } else {
            j + 4
        };
        assert(id_text(a)[i] == id_text(b)[i]);
        assert(id_text(a)[i] == hex_digit(nibble(a, j)));
        assert(id_text(b)[i] == hex_digit(nibble(b, j)));
        lemma_digits_differ(nibble(a, j), nibble(b, j));
    }
    lemma_digits_agree(a, b, 32);
    assert(pow(16, 0) == 1) by {
        reveal(pow);
    }
}

} // verus!
