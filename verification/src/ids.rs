//! Task identifiers: the 128-bit value of a UUID, and its text form.
use vstd::prelude::*;
use vstd::arithmetic::power2::pow2;

verus! {

/// Lower-case hexadecimal digit of a value below 16.
pub open spec fn hex_digit(n: int) -> char {
    if n < 10 {
        (48 + n) as char
    } else {
        (87 + n) as char
    }
}

/// The `k`-th hexadecimal digit (0..32) of `id`, the most significant first.
pub open spec fn nibble(id: u128, k: int) -> int {
    (id as int / pow2((4 * (31 - k)) as nat) as int) % 16
}

/// Which of the 32 digits stands at character `i` of the hyphenated form.
pub open spec fn digit_index(i: int) -> int {
    if i < 8 {
        i
    } else if i < 13 {
        i - 1
    } else if i < 18 {
        i - 2
    } else if i < 23 {
        i - 3
    } else {
        i - 4
    }
}

/// The hyphenated lower-case form of a UUID: 8-4-4-4-12 hexadecimal digits,
/// most significant first, such as `67e55044-10b1-426f-9247-bb680e5fe0c8`.
pub open spec fn uuid_text(id: u128) -> Seq<char> {
    Seq::new(
        36,
        |i: int|
            if i == 8 || i == 13 || i == 18 || i == 23 {
                '-'
            } else {
                hex_digit(nibble(id, digit_index(i)))
            },
    )
}

/// Bits that every random (version 4, RFC 4122 variant) UUID has fixed.
pub open spec fn is_random_uuid(id: u128) -> bool {
    id & 0xf000c000000000000000u128 == 0x40008000000000000000u128
}

/// Draws a fresh random task identifier through `uuid::Uuid::new_v4`.
/// Claimed: the version nibble is 4 and the variant bits are `10`, which the
/// crate's source sets on every draw; nothing else is known of the value.
#[verifier::external_body]
pub(crate) fn new_task_id() -> (id: u128)
    ensures
        is_random_uuid(id),
{
    uuid::Uuid::new_v4().as_u128()
}

/// Formats an identifier through `uuid::Uuid::from_u128` and its `Display`
/// impl. Claimed: the text is the hyphenated lower-case form, as the crate's
/// `Display` delegates to `LowerHex` of `as_hyphenated`.
#[verifier::external_body]
pub(crate) fn uuid_string(id: u128) -> (s: String)
    ensures
        s@ == uuid_text(id),
{
    uuid::Uuid::from_u128(id).to_string()
}

} // verus!
