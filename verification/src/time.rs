//! The one outside capability the processor needs: the current time,
//! written as an RFC 3339 timestamp.

use vstd::prelude::*;
use crate::num::is_digit;
use crate::record::plain_char;
use crate::record::plain_seq;

verus! {

/// A character that an RFC 3339 timestamp can be written with: a digit or
/// one of the punctuation marks `-`, `:`, `T`, `+`, `.`, `Z`.
pub open spec fn rfc3339_char(c: char) -> bool {
    ||| is_digit(c)
    ||| c == '-'
    ||| c == ':'
    ||| c == 'T'
    ||| c == '+'
    ||| c == '.'
    ||| c == 'Z'
}

/// Relies on chrono's `From<SystemTime> for DateTime<Utc>` and
/// `DateTime::to_rfc3339`: the current moment in UTC as a nonempty RFC 3339
/// timestamp, which is spelled with digits and the punctuation `-`, `:`,
/// `T`, `+`, `.` and `Z` alone. The `From` impl handles clocks before the
/// Unix epoch; only a clock beyond roughly ±262,000 years, which no
/// mainstream system clock can hold, falls outside chrono's range. The
/// moment itself depends on the clock, so nothing more is stated of the
/// value.
#[verifier::external_body]
pub(crate) fn now_rfc3339() -> (r: String)
    ensures
        r@.len() > 0,
        forall|i: int| 0 <= i < r@.len() ==> rfc3339_char(#[trigger] r@[i]),
{
    chrono::DateTime::<chrono::Utc>::from(std::time::SystemTime::now()).to_rfc3339()
}

/// Timestamp characters are plain: no quote, backslash or control character.
pub proof fn lemma_rfc3339_plain(s: Seq<char>)
    requires
        forall|i: int| 0 <= i < s.len() ==> rfc3339_char(#[trigger] s[i]),
    ensures
        plain_seq(s),
{
    assert forall|i: int| 0 <= i < s.len() implies plain_char(#[trigger] s[i]) by {
        assert(rfc3339_char(s[i]));
    }
}

} // verus!
