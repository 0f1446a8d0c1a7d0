//! The result record: the structured description of one processing outcome,
//! its mathematical model, and the message the processor stamps into it.

use vstd::prelude::*;
use crate::num::dec_chars;
use crate::num::is_digit;
use crate::num::push_dec;

verus! {

/// A character that needs no escaping inside a JSON string: not a quote,
/// not a backslash, not a control character.
pub open spec fn plain_char(c: char) -> bool {
    c != '"' && c != '\\' && c as int >= 32
}

/// A string of plain characters only.
pub open spec fn plain_seq(s: Seq<char>) -> bool {
    forall|i: int| 0 <= i < s.len() ==> plain_char(#[trigger] s[i])
}

/// The model of the structured payload: what the record reports of the
/// processed item.
#[verifier::ext_equal]
pub ghost struct DataModel {
    /// How many Unicode scalar values the input held.
    pub length: nat,
    /// When processing completed, as an RFC 3339 timestamp.
    pub processed_at: Seq<char>,
    /// The 1-based sequence number of the item.
    pub item_number: nat,
}

/// The model of a whole result record.
#[verifier::ext_equal]
pub ghost struct ResultModel {
    pub success: bool,
    pub message: Seq<char>,
    pub data: Option<DataModel>,
}

/// The structured payload of a result record.
#[derive(Debug)]
pub struct ProcessData {
    /// Input length, counted in Unicode scalar values.
    pub length: usize,
    /// Completion time, an RFC 3339 timestamp in UTC.
    pub processed_at: String,
    /// The 1-based sequence number within the owning processor's lifetime.
    pub item_number: usize,
}

impl View for ProcessData {
    type V = DataModel;

    open spec fn view(&self) -> DataModel {
        DataModel {
            length: self.length as nat,
            processed_at: self.processed_at@,
            item_number: self.item_number as nat,
        }
    }
}

/// The structured outcome of processing one input item.
#[derive(Debug)]
pub struct ProcessResult {
    /// Whether processing succeeded. Always true in the current contract.
    pub success: bool,
    /// Human-readable summary; embeds the item's sequence number.
    pub message: String,
    /// Optional structured payload.
    pub data: Option<ProcessData>,
}

impl View for ProcessResult {
    type V = ResultModel;

    open spec fn view(&self) -> ResultModel {
        ResultModel {
            success: self.success,
            message: self.message@,
            data: match self.data {
                Option::Some(d) => Option::Some(d@),
                Option::None => Option::None,
            },
        }
    }
}

/// The summary message for the item with sequence number `n`.
pub open spec fn message_chars(n: nat) -> Seq<char> {
    "Successfully processed item #"@ + dec_chars(n)
}

/// The record invariant: the sequence number embedded in the message always
/// equals the payload's `item_number`.
pub open spec fn consistent_model(m: ResultModel) -> bool {
    m.data matches Some(d) ==> m.message == message_chars(d.item_number)
}

/// The summary message consists of plain characters only.
pub proof fn lemma_message_plain(n: nat)
    ensures
        plain_seq(message_chars(n)),
{
    reveal_strlit("Successfully processed item #");
    crate::num::lemma_dec_chars_shape(n);
    let lit = "Successfully processed item #"@;
    assert forall|i: int| 0 <= i < message_chars(n).len() implies plain_char(
        #[trigger] message_chars(n)[i],
    ) by {
        if i < lit.len() {
            assert(plain_char(lit[i]));
        } else {
            assert(is_digit(dec_chars(n)[i - lit.len()]));
        }
    }
}

/// Builds the summary message for the item with sequence number `n`.
pub fn success_message(n: usize) -> (s: String)
    ensures
        s@ == message_chars(n as nat),
{
    let mut s = String::new();
    s.append("Successfully processed item #");
    push_dec(&mut s, n);
    proof {
        assert(s@ =~= message_chars(n as nat));
    }
    s
}

} // verus!
