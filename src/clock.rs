//! The wall clock, as the timestamps that notes carry.
use vstd::prelude::*;

verus! {

pub open spec fn is_digit(c: char) -> bool {
    '0' <= c && c <= '9'
}

/// Characters that a timestamp is made of.
pub open spec fn is_stamp_char(c: char) -> bool {
    is_digit(c) || c == '+' || c == '-' || c == ':' || c == ' '
}

/// What every `%Y-%m-%d %H:%M:%S` timestamp looks like: digits joined by
/// `-`, `:` and a space, a year that may carry a sign, every `-` followed by
/// a digit, a digit last.
pub open spec fn stamp_shaped(s: Seq<char>) -> bool {
    &&& s.len() > 0
    &&& is_digit(s.last())
    &&& forall|i: int| 0 <= i < s.len() ==> is_stamp_char(#[trigger] s[i])
    &&& forall|i: int|
        0 <= i < s.len() && #[trigger] s[i] == '-' ==> i + 1 < s.len() && is_digit(s[i + 1])
}

/// Relies on `chrono::Local::now` and its `%Y-%m-%d %H:%M:%S` formatting:
/// a year of at least four digits (with a sign outside 0..=9999), then month,
/// day, hour, minute and second as two digits each.
#[verifier::external_body]
pub fn now_timestamp() -> (r: String)
    ensures
        stamp_shaped(r@),
{
    chrono::Local::now().format("%Y-%m-%d %H:%M:%S").to_string()
}

} // verus!
