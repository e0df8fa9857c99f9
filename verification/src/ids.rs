//! Fresh identifiers and the current time.

use vstd::prelude::*;

verus! {

/// A hexadecimal digit, in small letters.
pub open spec fn is_small_hex(c: char) -> bool {
    '0' as u32 <= c as u32 <= '9' as u32 || 'a' as u32 <= c as u32 <= 'f' as u32
}

/// A random identifier in its hyphenated form: groups of 8, 4, 4, 4 and 12
/// hexadecimal digits, with the digit of the version and that of the variant.
pub open spec fn is_random_id(s: Seq<char>) -> bool {
    &&& s.len() == 36
    &&& forall|i: int|
        0 <= i < 36 ==> if i == 8 || i == 13 || i == 18 || i == 23 {
            #[trigger] s[i] == '-'
        } else {
            is_small_hex(s[i])
        }
    &&& s[14] == '4'
    &&& s[19] == '8' || s[19] == '9' || s[19] == 'a' || s[19] == 'b'
}

/// `uuid::Uuid::new_v4`, written out in the hyphenated form. Which of the
/// identifiers of version 4 it is, is left to chance.
#[verifier::external_body]
pub(crate) fn fresh_id() -> (r: String)
    ensures
        is_random_id(r@),
{
    uuid::Uuid::new_v4().to_string()
}

/// `std::time::SystemTime::elapsed` of the Unix epoch, in whole seconds, or
/// nothing where the clock stands before it. Nothing is claimed of the time.
#[verifier::external_body]
pub(crate) fn seconds_since_epoch() -> (r: Option<u64>) {
    std::time::UNIX_EPOCH.elapsed().map(|d| d.as_secs()).ok()
}

/// A time in seconds as it is stored: 0 for a clock that stands before the
/// epoch; one beyond the largest stored number wraps round.
pub fn stored_time(seconds: Option<u64>) -> (r: i64)
    ensures
        seconds is None ==> r == 0,
        seconds matches Some(s) ==> r == if s <= i64::MAX {
            s as int
        } else {
            s - 0x1_0000_0000_0000_0000
        },
{
    match seconds {
        Some(s) => if s <= 0x7fff_ffff_ffff_ffff {
            s as i64
        } else {
            -1 - ((u64::MAX - s) as i64)
        },
        None => 0,
    }
}

/// The current Unix time in seconds, as it is stored.
pub fn unix_now() -> i64 {
    stored_time(seconds_since_epoch())
}

} // verus!
