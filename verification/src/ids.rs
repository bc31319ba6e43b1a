//! Collection ids: 128-bit UUIDs, held as numbers.

use vstd::arithmetic::power::*;
use vstd::prelude::*;

use crate::text;

verus! {

/// A collection id: the number that its UUID stands for.
pub type CollectionId = u128;

/// How many of the four hyphens of a UUID's text stand before place `i`.
pub open spec fn hyphens_before(i: int) -> int {
    if i <= 8 {
        0
    } else if i <= 13 {
        1
    } else if i <= 18 {
        2
    } else if i <= 23 {
        3
    } else {
        4
    }
}

/// The hyphenated text of a UUID: 32 lowercase hexadecimal digits in groups of
/// 8, 4, 4, 4 and 12.
pub open spec fn id_text(id: CollectionId) -> Seq<char> {
    Seq::new(
        36,
        |i: int|
            if i == 8 || i == 13 || i == 18 || i == 23 {
                '-'
            } else {
                text::hex_digit(
                    ((id as nat / pow(16, (31 - (i - hyphens_before(i))) as nat) as nat) % 16) as u32,
                )
            },
    )
}

/// What `Uuid::parse_str` makes of a text.
pub uninterp spec fn id_reading(text: Seq<char>) -> Option<CollectionId>;

/// `Uuid::new_v4` draws a random UUID. Whatever is drawn, its version digit is
/// 4 and its variant bits are those of RFC 4122.
#[verifier::external_body]
pub(crate) fn fresh_id() -> (id: CollectionId)
    ensures
        (id as nat / pow(16, 19) as nat) % 16 == 4,
        (id as nat / pow(2, 62) as nat) % 4 == 2,
{
    uuid::Uuid::new_v4().as_u128()
}

/// `Uuid`'s text form is its hyphenated form, and `Uuid::parse_str` reads that
/// form back.
#[verifier::external_body]
pub(crate) fn render_id(id: CollectionId) -> (r: String)
    ensures
        r@ == id_text(id),
        id_reading(r@) == Some(id),
{
    uuid::Uuid::from_u128(id).to_string()
}

/// `Uuid::parse_str` depends on the text alone; [`id_reading`] names its
/// result, which is nothing where the text is no UUID.
#[verifier::external_body]
pub(crate) fn read_id(text: &str) -> (r: Option<CollectionId>)
    ensures
        r == id_reading(text@),
{
    uuid::Uuid::parse_str(text).ok().map(|u| u.as_u128())
}

} // verus!
