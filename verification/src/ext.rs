//! Trusted bridges: the few outside calls the library leans on, each
//! wrapped in a function whose contract Verus believes without proof.

use chrono::TimeZone;
use vstd::prelude::*;

verus! {

/// The text that lenient UTF-8 decoding gives for a byte sequence. The
/// decoding is a pure function of the bytes; it is named here rather than
/// spelled out, and the wrapper below ties the name to the real decoder.
pub uninterp spec fn utf8_lossy(b: Seq<u8>) -> Seq<char>;

/// Relies on `String::from_utf8_lossy`: the result depends on the bytes
/// alone; decoding nothing yields nothing; valid UTF-8 decodes to itself,
/// so ASCII bytes come back as exactly their characters.
#[verifier::external_body]
pub(crate) fn lossy_string(bytes: &Vec<u8>) -> (r: String)
    ensures
        r@ == utf8_lossy(bytes@),
        bytes@.len() == 0 ==> r@.len() == 0,
        (forall|i: int| 0 <= i < bytes@.len() ==> bytes@[i] < 0x80) ==> r@ == bytes@.map_values(
            |x: u8| x as char,
        ),
{
    String::from_utf8_lossy(bytes.as_slice()).into_owned()
}

/// Relies on `str::chars`: the characters of a string slice, in order.
#[verifier::external_body]
pub(crate) fn chars_of(s: &str) -> (r: Vec<char>)
    ensures
        r@ == s@,
{
    s.chars().collect()
}

/// Relies on `String`'s `FromIterator<char>`: collecting characters gives
/// the string holding exactly those characters.
#[verifier::external_body]
pub(crate) fn string_from_chars(v: &Vec<char>) -> (r: String)
    ensures
        r@ == v@,
{
    v.iter().collect()
}

/// Relies on chrono's `TimeZone::timestamp_nanos` and
/// `DateTime::to_rfc3339`: formats a wall-clock instant, given as
/// nanoseconds since the Unix epoch, as an RFC 3339 timestamp in the local
/// time zone. The text depends on the machine's time zone, so no more than
/// non-emptiness is claimed of it.
#[verifier::external_body]
pub(crate) fn rfc3339_of_nanos(nanos: i64) -> (r: String)
    ensures
        r@.len() > 0,
{
    chrono::Local.timestamp_nanos(nanos).to_rfc3339()
}

} // verus!
