//! Identifiers as text.

use uuid::Uuid;
use vstd::prelude::*;

verus! {

/// The letter for four bits.
pub open spec fn hex_digit(bits: nat) -> char {
    if bits < 10 {
        (('0' as nat) + bits) as char
    } else {
        (('a' as nat) + bits - 10) as char
    }
}

/// Sixteen to a power.
pub open spec fn sixteens(count: nat) -> nat
    decreases count,
{
    if count == 0 {
        1
    } else {
        16 * sixteens((count - 1) as nat)
    }
}

/// The place among the hexadecimal digits of the letter at a place between hyphens.
pub open spec fn digit_place(place: int) -> int {
    if place < 8 {
        place
    } else if place < 13 {
        place - 1
    } else if place < 18 {
        place - 2
    } else if place < 23 {
        place - 3
    } else {
        place - 4
    }
}

/// An identifier in groups of hexadecimal digits with hyphens between them.
pub open spec fn hyphenated(id: u128) -> Seq<char> {
    Seq::new(
        36,
        |place: int|
            if place == 8 || place == 13 || place == 18 || place == 23 {
                '-'
            } else {
                hex_digit(id as nat / sixteens((31 - digit_place(place)) as nat) % 16)
            },
    )
}

/// The identifier that a text stands for.
pub uninterp spec fn parsed_identifier(text: Seq<char>) -> Option<u128>;

/// `uuid::Uuid::to_string` of `uuid::Uuid::from_u128`: the hexadecimal digits of the number, with
/// hyphens; reading the text with `uuid::Uuid::parse_str` gives the number back.
#[verifier::external_body]
fn uuid_to_string(id: u128) -> (result: String)
    ensures
        result@ == hyphenated(id),
        parsed_identifier(result@) == Some(id),
{
    Uuid::from_u128(id).to_string()
}

/// `uuid::Uuid::parse_str`, as a number: which text is an identifier, and which one, depends on the
/// text alone.
#[verifier::external_body]
fn uuid_parse_str(text: &str) -> (result: Option<u128>)
    ensures
        result == parsed_identifier(text@),
{
    Uuid::parse_str(text).ok().map(|id| id.as_u128())
}

/// Writes an identifier.
pub fn write_identifier(id: u128) -> (result: String)
    ensures
        result@ == hyphenated(id),
        parsed_identifier(result@) == Some(id),
{
    uuid_to_string(id)
}

/// Reads an identifier.
pub fn read_identifier(text: &str) -> (result: Option<u128>)
    ensures
        result == parsed_identifier(text@),
{
    uuid_parse_str(text)
}

} // verus!
