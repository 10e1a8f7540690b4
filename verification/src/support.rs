//! Trusted bridges to the outside world: random identifiers, the clock,
//! and the conversion between a `String` and its characters.

use vstd::prelude::*;

verus! {

/// Relies on `uuid::Uuid::new_v4` (read out through `Uuid::as_u128`): a
/// freshly drawn random 128-bit identifier. The value is random, so nothing
/// is promised of it; callers treat it as arbitrary.
#[verifier::external_body]
pub(crate) fn fresh_u128() -> u128 {
    uuid::Uuid::new_v4().as_u128()
}

/// Relies on `chrono::Utc::now` (read out through
/// `DateTime::timestamp_millis`): the current time as milliseconds since the
/// Unix epoch. The value comes from the system clock, so nothing is promised
/// of it.
#[verifier::external_body]
pub(crate) fn now_millis() -> i64 {
    chrono::Utc::now().timestamp_millis()
}

/// Relies on `String`'s `FromIterator<char>` impl: collecting characters
/// yields the string of exactly those characters in order.
#[verifier::external_body]
pub(crate) fn chars_to_string(v: &Vec<char>) -> (r: String)
    ensures
        r@ == v@,
{
    v.iter().collect()
}

/// Relies on `str::chars`: an iterator over the characters of the string,
/// front to back.
#[verifier::external_body]
pub(crate) fn string_to_chars(s: &String) -> (r: Vec<char>)
    ensures
        r@ == s@,
{
    s.chars().collect()
}

} // verus!
