//! The canonical textual form of a result record — a fixed single-line JSON
//! object — with a verified printer and parser for it.

use vstd::prelude::*;
use crate::errors::RunError;
use crate::num::dec_chars;
use crate::num::dec_val;
use crate::num::digit_val;
use crate::num::is_digit;
use crate::num::lemma_dec_chars_of_val;
use crate::num::lemma_dec_chars_shape;
use crate::num::lemma_dec_val_of_chars;
use crate::num::push_dec;
use crate::record::DataModel;
use crate::record::ProcessData;
use crate::record::ProcessResult;
use crate::record::ResultModel;
use crate::record::plain_char;
use crate::record::plain_seq;

verus! {

/// The opening of the canonical record, up to the `success` value.
pub open spec fn lit_head() -> Seq<char> {
    "{\"success\":"@
}

/// The separator between the `success` value and the `message` text.
pub open spec fn lit_msg() -> Seq<char> {
    ",\"message\":\""@
}

/// The separator between the `message` text and the `data` value.
pub open spec fn lit_data() -> Seq<char> {
    "\",\"data\":"@
}

/// An absent payload.
pub open spec fn lit_null() -> Seq<char> {
    "null"@
}

/// The opening of the payload object, up to the `length` value.
pub open spec fn lit_len() -> Seq<char> {
    "{\"length\":"@
}

/// The separator between the `length` value and the `processed_at` text.
pub open spec fn lit_ts() -> Seq<char> {
    ",\"processed_at\":\""@
}

/// The separator between the `processed_at` text and the `item_number` value.
pub open spec fn lit_item() -> Seq<char> {
    "\",\"item_number\":"@
}

/// A closing brace.
pub open spec fn lit_close() -> Seq<char> {
    "}"@
}

/// The canonical spelling of a boolean.
pub open spec fn bool_chars(b: bool) -> Seq<char> {
    if b {
        "true"@
    } else {
        "false"@
    }
}

/// The canonical spelling of the optional payload.
pub open spec fn data_chars(d: Option<DataModel>) -> Seq<char> {
    match d {
        Option::None => lit_null(),
        Option::Some(dm) => lit_len() + dec_chars(dm.length) + lit_ts() + dm.processed_at
            + lit_item() + dec_chars(dm.item_number) + lit_close(),
    }
}

/// The canonical textual form of a whole record: fixed key order, no
/// whitespace, strings embedded verbatim.
pub open spec fn json_chars(m: ResultModel) -> Seq<char> {
    lit_head() + bool_chars(m.success) + lit_msg() + m.message + lit_data() + data_chars(m.data)
        + lit_close()
}

/// A model the canonical form can carry faithfully: its strings need no
/// escaping and its counters fit the machine word.
pub open spec fn serializable(m: ResultModel) -> bool {
    &&& plain_seq(m.message)
    &&& (m.data matches Some(d) ==> plain_seq(d.processed_at) && d.length <= usize::MAX
        && d.item_number <= usize::MAX)
}

/// Where the decimal notation of `n` stands at position `i` of `s`,
/// delimited on the right by a non-digit or the end of `s`.
pub open spec fn starts_dec(s: Seq<char>, i: int, n: nat) -> bool {
    &&& 0 <= i
    &&& i + dec_chars(n).len() <= s.len()
    &&& s.subrange(i, i + dec_chars(n).len()) == dec_chars(n)
    &&& (i + dec_chars(n).len() < s.len() ==> !is_digit(s[i + dec_chars(n).len()]))
}

/// Whether every character of `s` is plain.
fn is_plain(s: &str) -> (r: bool)
    ensures
        r == plain_seq(s@),
{
    let n = s.unicode_len();
    let mut k: usize = 0;
    while k < n
        invariant
            k <= n,
            n == s@.len(),
            forall|j: int| 0 <= j < k ==> plain_char(#[trigger] s@[j]),
        decreases n - k,
    {
        let c = s.get_char(k);
        let u: u32 = c as u32;
        if u < 32 || c == '"' || c == '\\' {
            proof {
                assert(!plain_char(s@[k as int]));
            }
            return false;
        }
        k += 1;
    }
    true
}

/// Serializes a record to its canonical textual form. Fails exactly when
/// the record's strings would need escaping; the counters always fit.
pub fn to_json(r: &ProcessResult) -> (out: Result<String, RunError>)
    ensures
        serializable(r@) ==> (out matches Ok(s) && s@ == json_chars(r@)),
        !serializable(r@) ==> out == Err::<String, RunError>(RunError::IOWriteError),
{
    if !is_plain(r.message.as_str()) {
        return Err(RunError::IOWriteError);
    }
    match &r.data {
        Some(d) => {
            if !is_plain(d.processed_at.as_str()) {
                return Err(RunError::IOWriteError);
            }
        },
        None => {},
    }
    let mut s = String::new();
    s.append("{\"success\":");
    if r.success {
        s.append("true");
    } else {
        s.append("false");
    }
    s.append(",\"message\":\"");
    s.append(r.message.as_str());
    s.append("\",\"data\":");
    match &r.data {
        Some(d) => {
            s.append("{\"length\":");
            push_dec(&mut s, d.length);
            s.append(",\"processed_at\":\"");
            s.append(d.processed_at.as_str());
            s.append("\",\"item_number\":");
            push_dec(&mut s, d.item_number);
            s.append("}");
        },
        None => {
            s.append("null");
        },
    }
    s.append("}");
    proof {
        assert(s@ =~= json_chars(r@));
    }
    Ok(s)
}

/// A subrange that equals a concatenation splits at the first part's end.
proof fn lemma_split_range(s: Seq<char>, i: int, j: int, a: Seq<char>, b: Seq<char>)
    requires
        0 <= i <= j <= s.len(),
        s.subrange(i, j) == a + b,
    ensures
        a.len() + b.len() == j - i,
        s.subrange(i, i + a.len()) =~= a,
        s.subrange(i + a.len(), j) =~= b,
{
    assert(s.subrange(i, j).len() == j - i);
    assert((a + b).len() == a.len() + b.len());
    assert forall|k: int| 0 <= k < a.len() implies s.subrange(i, i + a.len() as int)[k] == a[k] by {
        assert(s.subrange(i, j)[k] == (a + b)[k]);
        assert(s.subrange(i, j)[k] == s[i + k]);
        assert(s.subrange(i, i + a.len() as int)[k] == s[i + k]);
        assert((a + b)[k] == a[k]);
    }
    assert forall|k: int| 0 <= k < b.len() implies s.subrange(i + a.len(), j)[k] == b[k] by {
        assert(s.subrange(i, j)[a.len() + k] == (a + b)[a.len() + k]);
        assert(s.subrange(i, j)[a.len() + k] == s[i + a.len() + k]);
        assert(s.subrange(i + a.len(), j)[k] == s[i + a.len() + k]);
        assert((a + b)[a.len() + k] == b[k]);
    }
}

/// End of the `success` value within the canonical form of `m`.
spec fn jp1(m: ResultModel) -> int {
    lit_head().len() + bool_chars(m.success).len() as int
}

/// Start of the `message` text.
spec fn jp2(m: ResultModel) -> int {
    jp1(m) + lit_msg().len()
}

/// End of the `message` text.
spec fn jp3(m: ResultModel) -> int {
    jp2(m) + m.message.len()
}

/// Start of the `data` value.
spec fn jp4(m: ResultModel) -> int {
    jp3(m) + lit_data().len()
}

/// End of the `data` value.
spec fn jp5(m: ResultModel) -> int {
    jp4(m) + data_chars(m.data).len()
}

/// Cuts the canonical form of `m` into its seven pieces.
proof fn lemma_decompose(s: Seq<char>, m: ResultModel)
    requires
        s == json_chars(m),
    ensures
        s.len() == jp5(m) + lit_close().len(),
        s.subrange(0, lit_head().len() as int) == lit_head(),
        s.subrange(lit_head().len() as int, jp1(m)) == bool_chars(m.success),
        s.subrange(jp1(m), jp2(m)) == lit_msg(),
        s.subrange(jp2(m), jp3(m)) == m.message,
        s.subrange(jp3(m), jp4(m)) == lit_data(),
        s.subrange(jp4(m), jp5(m)) == data_chars(m.data),
        s.subrange(jp5(m), s.len() as int) == lit_close(),
{
    let x5 = lit_head() + bool_chars(m.success) + lit_msg() + m.message + lit_data()
        + data_chars(m.data);
    let x4 = lit_head() + bool_chars(m.success) + lit_msg() + m.message + lit_data();
    let x3 = lit_head() + bool_chars(m.success) + lit_msg() + m.message;
    let x2 = lit_head() + bool_chars(m.success) + lit_msg();
    let x1 = lit_head() + bool_chars(m.success);
    assert(x1.len() == jp1(m));
    assert(x2.len() == x1.len() + lit_msg().len());
    assert(x3.len() == x2.len() + m.message.len());
    assert(x4.len() == x3.len() + lit_data().len());
    assert(x5.len() == x4.len() + data_chars(m.data).len());
    assert(s.subrange(0, s.len() as int) =~= s);
    assert(s.len() == x5.len() + lit_close().len());
    lemma_split_range(s, 0, s.len() as int, x5, lit_close());
    lemma_split_range(s, 0, jp5(m), x4, data_chars(m.data));
    lemma_split_range(s, 0, jp4(m), x3, lit_data());
    lemma_split_range(s, 0, jp3(m), x2, m.message);
    lemma_split_range(s, 0, jp2(m), x1, lit_msg());
    lemma_split_range(s, 0, jp1(m), lit_head(), bool_chars(m.success));
}

/// End of the `length` value within the canonical payload at `i`.
spec fn dq1(i: int, dm: DataModel) -> int {
    i + lit_len().len() + dec_chars(dm.length).len() as int
}

/// Start of the `processed_at` text.
spec fn dq2(i: int, dm: DataModel) -> int {
    dq1(i, dm) + lit_ts().len()
}

/// End of the `processed_at` text.
spec fn dq3(i: int, dm: DataModel) -> int {
    dq2(i, dm) + dm.processed_at.len()
}

/// Start of the `item_number` value.
spec fn dq4(i: int, dm: DataModel) -> int {
    dq3(i, dm) + lit_item().len()
}

/// End of the `item_number` value.
spec fn dq5(i: int, dm: DataModel) -> int {
    dq4(i, dm) + dec_chars(dm.item_number).len()
}

/// Cuts a canonical payload object standing at `i` into its seven pieces.
proof fn lemma_decompose_data(s: Seq<char>, i: int, dm: DataModel)
    requires
        0 <= i,
        i + data_chars(Some(dm)).len() <= s.len(),
        s.subrange(i, i + data_chars(Some(dm)).len() as int) == data_chars(Some(dm)),
    ensures
        i + data_chars(Some(dm)).len() == dq5(i, dm) + lit_close().len(),
        s.subrange(i, i + lit_len().len()) == lit_len(),
        s.subrange(i + lit_len().len(), dq1(i, dm)) == dec_chars(dm.length),
        s.subrange(dq1(i, dm), dq2(i, dm)) == lit_ts(),
        s.subrange(dq2(i, dm), dq3(i, dm)) == dm.processed_at,
        s.subrange(dq3(i, dm), dq4(i, dm)) == lit_item(),
        s.subrange(dq4(i, dm), dq5(i, dm)) == dec_chars(dm.item_number),
        s.subrange(dq5(i, dm), dq5(i, dm) + lit_close().len()) == lit_close(),
{
    let e = i + data_chars(Some(dm)).len() as int;
    let y5 = lit_len() + dec_chars(dm.length) + lit_ts() + dm.processed_at + lit_item()
        + dec_chars(dm.item_number);
    let y4 = lit_len() + dec_chars(dm.length) + lit_ts() + dm.processed_at + lit_item();
    let y3 = lit_len() + dec_chars(dm.length) + lit_ts() + dm.processed_at;
    let y2 = lit_len() + dec_chars(dm.length) + lit_ts();
    let y1 = lit_len() + dec_chars(dm.length);
    assert(y1.len() == lit_len().len() + dec_chars(dm.length).len());
    assert(y2.len() == y1.len() + lit_ts().len());
    assert(y3.len() == y2.len() + dm.processed_at.len());
    assert(y4.len() == y3.len() + lit_item().len());
    assert(y5.len() == y4.len() + dec_chars(dm.item_number).len());
    assert(data_chars(Some(dm)).len() == y5.len() + lit_close().len());
    lemma_split_range(s, i, e, y5, lit_close());
    lemma_split_range(s, i, dq5(i, dm), y4, dec_chars(dm.item_number));
    lemma_split_range(s, i, dq4(i, dm), y3, lit_item());
    lemma_split_range(s, i, dq3(i, dm), y2, dm.processed_at);
    lemma_split_range(s, i, dq2(i, dm), y1, lit_ts());
    lemma_split_range(s, i, dq1(i, dm), lit_len(), dec_chars(dm.length));
}

/// A maximal digit run that carries a canonical notation is that notation.
proof fn lemma_run_is_dec(s: Seq<char>, i: int, e: int, n: nat)
    requires
        0 <= i <= e <= s.len(),
        forall|k: int| i <= k < e ==> is_digit(#[trigger] s[k]),
        e < s.len() ==> !is_digit(s[e]),
        starts_dec(s, i, n),
    ensures
        e == i + dec_chars(n).len(),
        s.subrange(i, e) == dec_chars(n),
{
    let d = dec_chars(n);
    lemma_dec_chars_shape(n);
    if e < i + d.len() {
        assert(s[e] == s.subrange(i, i + d.len() as int)[e - i]);
        assert(is_digit(s[e]));
        assert(false);
    }
    if e > i + d.len() {
        assert(is_digit(s[i + d.len()]));
        assert(false);
    }
}

/// The value of a prefix of a digit run is at most the run's value.
proof fn lemma_dec_val_prefix(s: Seq<char>, i: int)
    requires
        0 <= i <= s.len(),
        forall|k: int| 0 <= k < s.len() ==> is_digit(#[trigger] s[k]),
    ensures
        dec_val(s.subrange(0, i)) <= dec_val(s),
    decreases s.len() - i,
{
    if i == s.len() {
        assert(s.subrange(0, i) =~= s);
    } else {
        lemma_dec_val_prefix(s.drop_last(), i);
        assert(s.drop_last().subrange(0, i) =~= s.subrange(0, i));
        assert(dec_val(s.drop_last()) * 10 >= dec_val(s.drop_last())) by (nonlinear_arith);
    }
}

/// Whether `c` is a decimal digit.
fn is_digit_exec(c: char) -> (r: bool)
    ensures
        r == is_digit(c),
{
    let u: u32 = c as u32;
    48 <= u && u <= 57
}

/// The numeric value of a digit character.
fn digit_val_exec(c: char) -> (d: usize)
    requires
        is_digit(c),
    ensures
        d == digit_val(c),
        d < 10,
{
    ((c as u32) - 48) as usize
}

/// Checks that the text of `lit` stands at position `i` of `s`; on success
/// returns the position just past it.
fn expect_lit(s: &str, i: usize, lit: &str) -> (r: Option<usize>)
    requires
        i <= s@.len(),
    ensures
        r matches Some(j) ==> j == i + lit@.len() && j <= s@.len()
            && s@.subrange(i as int, j as int) == lit@,
        r is None ==> !(i + lit@.len() <= s@.len()
            && s@.subrange(i as int, i + lit@.len()) == lit@),
{
    let sl = s.unicode_len();
    let ll = lit.unicode_len();
    if sl - i < ll {
        return None;
    }
    let mut k: usize = 0;
    while k < ll
        invariant
            k <= ll,
            i + ll <= sl,
            sl == s@.len(),
            ll == lit@.len(),
            forall|j: int| 0 <= j < k ==> s@[i + j] == lit@[j],
        decreases ll - k,
    {
        let cs = s.get_char(i + k);
        let cl = lit.get_char(k);
        if cs != cl {
            proof {
                assert(s@.subrange(i as int, i + lit@.len())[k as int] == s@[i + k]);
            }
            return None;
        }
        k += 1;
    }
    proof {
        assert(s@.subrange(i as int, (i + ll) as int) =~= lit@);
    }
    Some(i + ll)
}

/// Scans from position `i` of `s` up to the first quote; on success returns
/// the text before the quote and the quote's position.
fn scan_string(s: &str, i: usize) -> (r: Option<(String, usize)>)
    requires
        i <= s@.len(),
    ensures
        r matches Some(p) ==> i <= p.1 < s@.len() && s@[p.1 as int] == '"'
            && p.0@ == s@.subrange(i as int, p.1 as int)
            && (forall|k: int| i <= k < p.1 ==> s@[k] != '"'),
        r is None ==> forall|k: int| i <= k < s@.len() ==> s@[k] != '"',
{
    let sl = s.unicode_len();
    let mut e: usize = i;
    while e < sl
        invariant
            i <= e <= sl,
            sl == s@.len(),
            forall|k: int| i <= k < e ==> s@[k] != '"',
        decreases sl - e,
    {
        let c = s.get_char(e);
        if c == '"' {
            let sub = s.substring_char(i, e);
            let t = String::from_str(sub);
            return Some((t, e));
        }
        e += 1;
    }
    None
}

/// Reads a canonical decimal number standing at position `i` of `s`: a
/// maximal digit run without leading zeros whose value fits the machine
/// word. On success returns the value and the position just past the run.
fn parse_number(s: &str, i: usize) -> (r: Option<(usize, usize)>)
    requires
        i <= s@.len(),
    ensures
        r matches Some(p) ==> i < p.1 <= s@.len()
            && s@.subrange(i as int, p.1 as int) == dec_chars(p.0 as nat)
            && (p.1 < s@.len() ==> !is_digit(s@[p.1 as int])),
        forall|n: nat| n <= usize::MAX && starts_dec(s@, i as int, n)
            ==> (r matches Some(p) && p.0 == n && p.1 == i + dec_chars(n).len()),
{
    let sl = s.unicode_len();
    let mut e: usize = i;
    loop
        invariant
            i <= e <= sl,
            sl == s@.len(),
            forall|k: int| i <= k < e ==> is_digit(#[trigger] s@[k]),
        ensures
            i <= e <= sl,
            forall|k: int| i <= k < e ==> is_digit(#[trigger] s@[k]),
            e < sl ==> !is_digit(s@[e as int]),
        decreases sl - e,
    {
        if e >= sl {
            break;
        }
        let c = s.get_char(e);
        if !is_digit_exec(c) {
            break;
        }
        e += 1;
    }
    if e == i {
        proof {
            assert forall|n: nat|
                n <= usize::MAX && starts_dec(s@, i as int, n) implies false by {
                lemma_dec_chars_shape(n);
                assert(s@[i as int] == s@.subrange(i as int, i + dec_chars(n).len())[0]);
                assert(is_digit(s@[i as int]));
            }
        }
        return None;
    }
    if e - i > 1 && s.get_char(i) == '0' {
        proof {
            assert forall|n: nat|
                n <= usize::MAX && starts_dec(s@, i as int, n) implies false by {
                lemma_run_is_dec(s@, i as int, e as int, n);
                lemma_dec_chars_shape(n);
                assert(dec_chars(n)[0] == s@.subrange(i as int, e as int)[0]);
            }
        }
        return None;
    }
    let ghost run = s@.subrange(i as int, e as int);
    let mut v: usize = 0;
    let mut k: usize = i;
    while k < e
        invariant
            i <= k <= e <= sl,
            sl == s@.len(),
            run == s@.subrange(i as int, e as int),
            forall|kk: int| i <= kk < e ==> is_digit(#[trigger] s@[kk]),
            e < sl ==> !is_digit(s@[e as int]),
            e - i > 1 ==> s@[i as int] != '0',
            v == dec_val(s@.subrange(i as int, k as int)),
        decreases e - k,
    {
        let c = s.get_char(k);
        let d = digit_val_exec(c);
        proof {
            assert(s@.subrange(i as int, (k + 1) as int) =~= s@.subrange(i as int, k as int).push(
                s@[k as int],
            ));
            assert(s@.subrange(i as int, (k + 1) as int).drop_last() =~= s@.subrange(
                i as int,
                k as int,
            ));
        }
        let step = match v.checked_mul(10) {
            Some(p) => p.checked_add(d),
            None => None,
        };
        match step {
            Some(next) => {
                v = next;
            },
            None => {
                proof {
                    assert forall|n: nat|
                        n <= usize::MAX && starts_dec(s@, i as int, n) implies false by {
                        lemma_run_is_dec(s@, i as int, e as int, n);
                        lemma_dec_val_of_chars(n);
                        assert(run == dec_chars(n));
                        assert(dec_val(run) == n);
                        lemma_dec_val_prefix(run, k + 1 - i);
                        assert(run.subrange(0, k + 1 - i) =~= s@.subrange(
                            i as int,
                            (k + 1) as int,
                        ));
                        assert(dec_val(s@.subrange(i as int, (k + 1) as int)) == v * 10 + d);
                        assert(v * 10 + d > usize::MAX);
                    }
                }
                return None;
            },
        }
        k += 1;
    }
    proof {
        assert(run.len() >= 1);
        assert(run[0] == s@[i as int]);
        lemma_dec_chars_of_val(run);
        assert(s@.subrange(i as int, e as int) == dec_chars(v as nat));
        assert forall|n: nat|
            n <= usize::MAX && starts_dec(s@, i as int, n) implies v == n && e == i + dec_chars(
            n,
        ).len() by {
            lemma_run_is_dec(s@, i as int, e as int, n);
            lemma_dec_val_of_chars(n);
            assert(run == dec_chars(n));
        }
    }
    Some((v, e))
}

/// Two adjacent subranges with known contents merge into one.
proof fn lemma_merge(s: Seq<char>, i: int, j: int, k: int, a: Seq<char>, b: Seq<char>)
    requires
        0 <= i <= j <= k <= s.len(),
        s.subrange(i, j) == a,
        s.subrange(j, k) == b,
    ensures
        s.subrange(i, k) =~= a + b,
{
    assert(a.len() == j - i);
    assert(b.len() == k - j);
    assert forall|t: int| 0 <= t < k - i implies s.subrange(i, k)[t] == (a + b)[t] by {
        assert(s.subrange(i, k)[t] == s[i + t]);
        if t < a.len() {
            assert(s.subrange(i, j)[t] == s[i + t]);
        } else {
            assert(s.subrange(j, k)[t - a.len()] == s[j + (t - a.len())]);
        }
    }
}

/// The canonical payload object of `dm` stands at position `i` of `s`, and
/// `dm` is a payload the canonical form can carry faithfully.
spec fn data_at(s: Seq<char>, i: int, dm: DataModel) -> bool {
    &&& plain_seq(dm.processed_at)
    &&& dm.length <= usize::MAX
    &&& dm.item_number <= usize::MAX
    &&& 0 <= i
    &&& i + data_chars(Some(dm)).len() <= s.len()
    &&& s.subrange(i, i + data_chars(Some(dm)).len() as int) == data_chars(Some(dm))
}

/// Within a canonical payload at `i`, the `length` digits stand right after
/// the opening, delimited by the comma of the next key.
proof fn lemma_data_starts_len(s: Seq<char>, i: int, dm: DataModel)
    requires
        data_at(s, i, dm),
    ensures
        starts_dec(s, i + lit_len().len(), dm.length),
{
    lemma_decompose_data(s, i, dm);
    reveal_strlit(",\"processed_at\":\"");
    assert(s[dq1(i, dm)] == s.subrange(dq1(i, dm), dq2(i, dm))[0]);
    assert(s[dq1(i, dm)] == lit_ts()[0]);
}

/// Within a canonical payload at `i`, the `item_number` digits stand after
/// the `item_number` key, delimited by the closing brace.
proof fn lemma_data_starts_item(s: Seq<char>, i: int, dm: DataModel)
    requires
        data_at(s, i, dm),
    ensures
        starts_dec(s, dq4(i, dm), dm.item_number),
{
    lemma_decompose_data(s, i, dm);
    reveal_strlit("}");
    assert(s[dq5(i, dm)] == s.subrange(dq5(i, dm), dq5(i, dm) + lit_close().len())[0]);
    assert(s[dq5(i, dm)] == lit_close()[0]);
}

/// Within a canonical payload at `i`, the first quote at or after the
/// timestamp's start is the quote that closes the timestamp.
proof fn lemma_data_ts_bounds(s: Seq<char>, i: int, dm: DataModel)
    requires
        data_at(s, i, dm),
    ensures
        forall|k: int| dq2(i, dm) <= k < dq3(i, dm) ==> s[k] != '"',
        dq3(i, dm) < s.len(),
        s[dq3(i, dm)] == '"',
{
    lemma_decompose_data(s, i, dm);
    reveal_strlit("\",\"item_number\":");
    assert(s[dq3(i, dm)] == s.subrange(dq3(i, dm), dq4(i, dm))[0]);
    assert(s[dq3(i, dm)] == lit_item()[0]);
    assert forall|k: int| dq2(i, dm) <= k < dq3(i, dm) implies s[k] != '"' by {
        assert(s[k] == s.subrange(dq2(i, dm), dq3(i, dm))[k - dq2(i, dm)]);
        assert(plain_char(dm.processed_at[k - dq2(i, dm)]));
    }
}

/// Reads a canonical payload object standing at position `i` of `s`: on
/// success, the text it covers is exactly the canonical form of the
/// returned payload, and any payload whose canonical form stands at `i`
/// is the one returned.
#[verifier::rlimit(60)]
fn parse_data(s: &str, i: usize) -> (r: Option<(ProcessData, usize)>)
    requires
        i <= s@.len(),
    ensures
        r matches Some(p) ==> i < p.1 <= s@.len() && plain_seq(p.0.processed_at@)
            && s@.subrange(i as int, p.1 as int) == data_chars(Some(p.0@)),
        forall|dm: DataModel| data_at(s@, i as int, dm)
            ==> (r matches Some(p) && p.0@ == dm && p.1 == i + data_chars(Some(dm)).len()),
{
    let j1 = match expect_lit(s, i, "{\"length\":") {
        Some(j) => j,
        None => {
            proof {
                assert forall|dm: DataModel| data_at(s@, i as int, dm) implies false by {
                    lemma_decompose_data(s@, i as int, dm);
                }
            }
            return None;
        },
    };
    let (v_len, j2) = match parse_number(s, j1) {
        Some(p) => p,
        None => {
            proof {
                assert forall|dm: DataModel| data_at(s@, i as int, dm) implies false by {
                    lemma_data_starts_len(s@, i as int, dm);
                    assert(starts_dec(s@, j1 as int, dm.length));
                }
            }
            return None;
        },
    };
    let j3 = match expect_lit(s, j2, ",\"processed_at\":\"") {
        Some(j) => j,
        None => {
            proof {
                assert forall|dm: DataModel| data_at(s@, i as int, dm) implies false by {
                    lemma_decompose_data(s@, i as int, dm);
                    lemma_data_starts_len(s@, i as int, dm);
                    assert(starts_dec(s@, j1 as int, dm.length));
                    assert(j2 == dq1(i as int, dm));
                }
            }
            return None;
        },
    };
    let (ts, j4) = match scan_string(s, j3) {
        Some(p) => p,
        None => {
            proof {
                assert forall|dm: DataModel| data_at(s@, i as int, dm) implies false by {
                    lemma_decompose_data(s@, i as int, dm);
                    lemma_data_starts_len(s@, i as int, dm);
                    assert(starts_dec(s@, j1 as int, dm.length));
                    assert(j2 == dq1(i as int, dm));
                    lemma_data_ts_bounds(s@, i as int, dm);
                    assert(s@[dq3(i as int, dm)] == '"');
                }
            }
            return None;
        },
    };
    if !is_plain(ts.as_str()) {
        proof {
            assert forall|dm: DataModel| data_at(s@, i as int, dm) implies false by {
                lemma_decompose_data(s@, i as int, dm);
                lemma_data_starts_len(s@, i as int, dm);
                assert(starts_dec(s@, j1 as int, dm.length));
                assert(j2 == dq1(i as int, dm));
                lemma_data_ts_bounds(s@, i as int, dm);
                if (j4 as int) < dq3(i as int, dm) {
                    assert(s@[j4 as int] != '"');
                } else if (j4 as int) > dq3(i as int, dm) {
                    assert(s@[dq3(i as int, dm)] != '"');
                }
                assert(j4 == dq3(i as int, dm));
                assert(ts@ == dm.processed_at);
            }
        }
        return None;
    }
    let j5 = match expect_lit(s, j4, "\",\"item_number\":") {
        Some(j) => j,
        None => {
            proof {
                assert forall|dm: DataModel| data_at(s@, i as int, dm) implies false by {
                    lemma_decompose_data(s@, i as int, dm);
                    lemma_data_starts_len(s@, i as int, dm);
                    assert(starts_dec(s@, j1 as int, dm.length));
                    assert(j2 == dq1(i as int, dm));
                    lemma_data_ts_bounds(s@, i as int, dm);
                    if (j4 as int) < dq3(i as int, dm) {
                        assert(s@[j4 as int] != '"');
                    } else if (j4 as int) > dq3(i as int, dm) {
                        assert(s@[dq3(i as int, dm)] != '"');
                    }
                    assert(j4 == dq3(i as int, dm));
                }
            }
            return None;
        },
    };
    let (v_item, j6) = match parse_number(s, j5) {
        Some(p) => p,
        None => {
            proof {
                assert forall|dm: DataModel| data_at(s@, i as int, dm) implies false by {
                    lemma_decompose_data(s@, i as int, dm);
                    lemma_data_starts_len(s@, i as int, dm);
                    assert(starts_dec(s@, j1 as int, dm.length));
                    assert(j2 == dq1(i as int, dm));
                    lemma_data_ts_bounds(s@, i as int, dm);
                    if (j4 as int) < dq3(i as int, dm) {
                        assert(s@[j4 as int] != '"');
                    } else if (j4 as int) > dq3(i as int, dm) {
                        assert(s@[dq3(i as int, dm)] != '"');
                    }
                    assert(j4 == dq3(i as int, dm));
                    assert(j5 == dq4(i as int, dm));
                    lemma_data_starts_item(s@, i as int, dm);
                    assert(starts_dec(s@, j5 as int, dm.item_number));
                }
            }
            return None;
        },
    };
    let j7 = match expect_lit(s, j6, "}") {
        Some(j) => j,
        None => {
            proof {
                assert forall|dm: DataModel| data_at(s@, i as int, dm) implies false by {
                    lemma_decompose_data(s@, i as int, dm);
                    lemma_data_starts_len(s@, i as int, dm);
                    assert(starts_dec(s@, j1 as int, dm.length));
                    assert(j2 == dq1(i as int, dm));
                    lemma_data_ts_bounds(s@, i as int, dm);
                    if (j4 as int) < dq3(i as int, dm) {
                        assert(s@[j4 as int] != '"');
                    } else if (j4 as int) > dq3(i as int, dm) {
                        assert(s@[dq3(i as int, dm)] != '"');
                    }
                    assert(j4 == dq3(i as int, dm));
                    assert(j5 == dq4(i as int, dm));
                    lemma_data_starts_item(s@, i as int, dm);
                    assert(starts_dec(s@, j5 as int, dm.item_number));
                    assert(j6 == dq5(i as int, dm));
                }
            }
            return None;
        },
    };
    let d = ProcessData { length: v_len, processed_at: ts, item_number: v_item };
    proof {
        lemma_merge(s@, i as int, j1 as int, j2 as int, lit_len(), dec_chars(v_len as nat));
        lemma_merge(
            s@,
            i as int,
            j2 as int,
            j3 as int,
            lit_len() + dec_chars(v_len as nat),
            lit_ts(),
        );
        lemma_merge(
            s@,
            i as int,
            j3 as int,
            j4 as int,
            lit_len() + dec_chars(v_len as nat) + lit_ts(),
            d.processed_at@,
        );
        lemma_merge(
            s@,
            i as int,
            j4 as int,
            j5 as int,
            lit_len() + dec_chars(v_len as nat) + lit_ts() + d.processed_at@,
            lit_item(),
        );
        lemma_merge(
            s@,
            i as int,
            j5 as int,
            j6 as int,
            lit_len() + dec_chars(v_len as nat) + lit_ts() + d.processed_at@ + lit_item(),
            dec_chars(v_item as nat),
        );
        lemma_merge(
            s@,
            i as int,
            j6 as int,
            j7 as int,
            lit_len() + dec_chars(v_len as nat) + lit_ts() + d.processed_at@ + lit_item()
                + dec_chars(v_item as nat),
            lit_close(),
        );
        assert(s@.subrange(i as int, j7 as int) == data_chars(Some(d@)));
        assert forall|dm: DataModel| data_at(s@, i as int, dm) implies d@ == dm && j7 == i
            + data_chars(Some(dm)).len() by {
            lemma_decompose_data(s@, i as int, dm);
            lemma_data_starts_len(s@, i as int, dm);
            assert(starts_dec(s@, j1 as int, dm.length));
            assert(v_len == dm.length);
            assert(j2 == dq1(i as int, dm));
            lemma_data_ts_bounds(s@, i as int, dm);
            if (j4 as int) < dq3(i as int, dm) {
                assert(s@[j4 as int] != '"');
            } else if (j4 as int) > dq3(i as int, dm) {
                assert(s@[dq3(i as int, dm)] != '"');
            }
            assert(j4 == dq3(i as int, dm));
            assert(ts@ == dm.processed_at);
            assert(j5 == dq4(i as int, dm));
            lemma_data_starts_item(s@, i as int, dm);
            assert(starts_dec(s@, j5 as int, dm.item_number));
            assert(v_item == dm.item_number);
            assert(j6 == dq5(i as int, dm));
            assert(d@ =~= dm);
        }
    }
    Some((d, j7))
}

/// `s` is the canonical text of the record modelled by `m`.
pub open spec fn canonical_text(s: Seq<char>, m: ResultModel) -> bool {
    serializable(m) && s == json_chars(m)
}

/// Within the canonical form of `m`, the first quote at or after the
/// message's start is the quote that closes the message.
proof fn lemma_msg_bounds(s: Seq<char>, m: ResultModel)
    requires
        canonical_text(s, m),
    ensures
        forall|k: int| jp2(m) <= k < jp3(m) ==> s[k] != '"',
        jp3(m) < s.len(),
        s[jp3(m)] == '"',
{
    lemma_decompose(s, m);
    reveal_strlit("\",\"data\":");
    assert(s[jp3(m)] == s.subrange(jp3(m), jp4(m))[0]);
    assert(s[jp3(m)] == lit_data()[0]);
    assert forall|k: int| jp2(m) <= k < jp3(m) implies s[k] != '"' by {
        assert(s[k] == s.subrange(jp2(m), jp3(m))[k - jp2(m)]);
        assert(plain_char(m.message[k - jp2(m)]));
    }
}

/// The `success` spelling that stands in the canonical form of `m` decides
/// `m.success`.
proof fn lemma_bool_match(s: Seq<char>, m: ResultModel, b: bool)
    requires
        canonical_text(s, m),
        lit_head().len() + bool_chars(b).len() <= s.len(),
        s.subrange(lit_head().len() as int, lit_head().len() + bool_chars(b).len() as int) == bool_chars(
            b,
        ),
    ensures
        m.success == b,
        jp1(m) == lit_head().len() + bool_chars(b).len(),
{
    lemma_decompose(s, m);
    reveal_strlit("true");
    reveal_strlit("false");
    if m.success != b {
        assert(s[lit_head().len() as int] == s.subrange(
            lit_head().len() as int,
            lit_head().len() + bool_chars(b).len() as int,
        )[0]);
        assert(s[lit_head().len() as int] == s.subrange(lit_head().len() as int, jp1(m))[0]);
        assert(s[lit_head().len() as int] == bool_chars(b)[0]);
        assert(s[lit_head().len() as int] == bool_chars(m.success)[0]);
        assert(false);
    }
}

/// Everything the parsed prefix up to the message's closing quote decides
/// about a record whose canonical text is `s`: the boolean, the message's
/// bounds, and where its payload and closing brace stand.
proof fn lemma_header_chain(s: Seq<char>, m: ResultModel, b: bool, j4: int)
    requires
        canonical_text(s, m),
        lit_head().len() + bool_chars(b).len() <= s.len(),
        s.subrange(lit_head().len() as int, lit_head().len() + bool_chars(b).len() as int) == bool_chars(
            b,
        ),
        lit_head().len() + bool_chars(b).len() + lit_msg().len() <= j4 < s.len(),
        s[j4] == '"',
        forall|k: int| lit_head().len() + bool_chars(b).len() + lit_msg().len() <= k < j4 ==> s[k]
            != '"',
    ensures
        m.success == b,
        jp1(m) == lit_head().len() + bool_chars(b).len(),
        jp2(m) == jp1(m) + lit_msg().len(),
        j4 == jp3(m),
        s.subrange(jp2(m), j4) == m.message,
        jp4(m) == j4 + lit_data().len(),
        s.subrange(jp3(m), jp4(m)) == lit_data(),
        jp5(m) == jp4(m) + data_chars(m.data).len(),
        s.len() == jp5(m) + lit_close().len(),
        s.subrange(jp5(m), s.len() as int) == lit_close(),
        m.data matches Some(dm) ==> data_at(s, jp4(m), dm) && s[jp4(m)] == lit_len()[0],
        m.data is None ==> jp5(m) == jp4(m) + lit_null().len() && s.subrange(
            jp4(m),
            jp5(m),
        ) == lit_null() && s[jp4(m)] == lit_null()[0],
{
    lemma_bool_match(s, m, b);
    lemma_msg_bounds(s, m);
    lemma_decompose(s, m);
    if j4 < jp3(m) {
        assert(s[j4] != '"');
        assert(false);
    }
    if j4 > jp3(m) {
        assert(s[jp3(m)] != '"');
        assert(false);
    }
    match m.data {
        Option::Some(dm) => {
            assert(data_at(s, jp4(m), dm));
            reveal_strlit("{\"length\":");
            assert(s[jp4(m)] == s.subrange(jp4(m), jp5(m))[0]);
        },
        Option::None => {
            reveal_strlit("null");
            assert(s[jp4(m)] == s.subrange(jp4(m), jp5(m))[0]);
        },
    }
}

/// Parses the canonical textual form of a record: exactly the texts that
/// `to_json` produces are accepted. On success the input is the canonical
/// text of the returned record, and every record whose canonical text is
/// the input is returned.
#[verifier::rlimit(100)]
#[verifier::spinoff_prover]
pub fn from_json(s: &str) -> (r: Option<ProcessResult>)
    ensures
        r matches Some(rec) ==> canonical_text(s@, rec@),
        forall|m: ResultModel| canonical_text(s@, m) ==> (r matches Some(rec) && rec@ == m),
{
    let sl = s.unicode_len();
    let j1 = match expect_lit(s, 0, "{\"success\":") {
        Some(j) => j,
        None => {
            proof {
                assert forall|m: ResultModel| canonical_text(s@, m) implies false by {
                    lemma_decompose(s@, m);
                }
            }
            return None;
        },
    };
    let (b, j2) = match expect_lit(s, j1, "true") {
        Some(j) => (true, j),
        None => match expect_lit(s, j1, "false") {
            Some(j) => (false, j),
            None => {
                proof {
                    assert forall|m: ResultModel| canonical_text(s@, m) implies false by {
                        lemma_decompose(s@, m);
                        reveal_strlit("true");
                        reveal_strlit("false");
                        assert(s@.subrange(lit_head().len() as int, jp1(m)) == bool_chars(
                            m.success,
                        ));
                    }
                }
                return None;
            },
        },
    };
    proof {
        assert(s@.subrange(j1 as int, j2 as int) == bool_chars(b));
    }
    let j3 = match expect_lit(s, j2, ",\"message\":\"") {
        Some(j) => j,
        None => {
            proof {
                assert forall|m: ResultModel| canonical_text(s@, m) implies false by {
                    lemma_decompose(s@, m);
                    lemma_bool_match(s@, m, b);
                }
            }
            return None;
        },
    };
    let (msg, j4) = match scan_string(s, j3) {
        Some(p) => p,
        None => {
            proof {
                assert forall|m: ResultModel| canonical_text(s@, m) implies false by {
                    lemma_bool_match(s@, m, b);
                    lemma_msg_bounds(s@, m);
                    assert(s@[jp3(m)] == '"');
                }
            }
            return None;
        },
    };
    if !is_plain(msg.as_str()) {
        proof {
            assert forall|m: ResultModel| canonical_text(s@, m) implies false by {
                lemma_header_chain(s@, m, b, j4 as int);
                assert(msg@ == m.message);
            }
        }
        return None;
    }
    let j5 = match expect_lit(s, j4, "\",\"data\":") {
        Some(j) => j,
        None => {
            proof {
                assert forall|m: ResultModel| canonical_text(s@, m) implies false by {
                    lemma_header_chain(s@, m, b, j4 as int);
                }
            }
            return None;
        },
    };
    let parsed: (Option<ProcessData>, usize) = match expect_lit(s, j5, "null") {
        Some(j) => (None, j),
        None => match parse_data(s, j5) {
            Some(p) => (Some(p.0), p.1),
            None => {
                proof {
                    assert forall|m: ResultModel| canonical_text(s@, m) implies false by {
                        lemma_header_chain(s@, m, b, j4 as int);
                        match m.data {
                            Option::None => {},
                            Option::Some(dm) => {
                                assert(data_at(s@, j5 as int, dm));
                            },
                        }
                    }
                }
                return None;
            },
        },
    };
    let data = parsed.0;
    let j6 = parsed.1;
    proof {
        assert forall|m: ResultModel| canonical_text(s@, m) implies j6 == jp5(m) && (
        data matches Some(d) ==> m.data == Some(d@)) && (data is None ==> m.data is None) by {
            lemma_header_chain(s@, m, b, j4 as int);
            reveal_strlit("null");
            reveal_strlit("{\"length\":");
            match m.data {
                Option::None => {
                    assert(data is None);
                },
                Option::Some(dm) => {
                    assert(data_at(s@, j5 as int, dm));
                    assert(data matches Some(d) && d@ == dm);
                },
            }
        }
    }
    let j7 = match expect_lit(s, j6, "}") {
        Some(j) => j,
        None => {
            proof {
                assert forall|m: ResultModel| canonical_text(s@, m) implies false by {
                    lemma_header_chain(s@, m, b, j4 as int);
                }
            }
            return None;
        },
    };
    if j7 != sl {
        proof {
            assert forall|m: ResultModel| canonical_text(s@, m) implies false by {
                lemma_header_chain(s@, m, b, j4 as int);
            }
        }
        return None;
    }
    let rec = ProcessResult { success: b, message: msg, data };
    proof {
        assert(s@.subrange(j5 as int, j6 as int) == data_chars(rec@.data));
        lemma_merge(s@, 0, j1 as int, j2 as int, lit_head(), bool_chars(b));
        lemma_merge(s@, 0, j2 as int, j3 as int, lit_head() + bool_chars(b), lit_msg());
        lemma_merge(
            s@,
            0,
            j3 as int,
            j4 as int,
            lit_head() + bool_chars(b) + lit_msg(),
            rec.message@,
        );
        lemma_merge(
            s@,
            0,
            j4 as int,
            j5 as int,
            lit_head() + bool_chars(b) + lit_msg() + rec.message@,
            lit_data(),
        );
        lemma_merge(
            s@,
            0,
            j5 as int,
            j6 as int,
            lit_head() + bool_chars(b) + lit_msg() + rec.message@ + lit_data(),
            data_chars(rec@.data),
        );
        lemma_merge(
            s@,
            0,
            j6 as int,
            j7 as int,
            lit_head() + bool_chars(b) + lit_msg() + rec.message@ + lit_data() + data_chars(
                rec@.data,
            ),
            lit_close(),
        );
        assert(s@.subrange(0, sl as int) =~= s@);
        assert(s@ == json_chars(rec@));
        assert(serializable(rec@));
        assert forall|m: ResultModel| canonical_text(s@, m) implies rec@ == m by {
            lemma_header_chain(s@, m, b, j4 as int);
            assert(msg@ == m.message);
            assert(rec@ =~= m);
        }
    }
    Some(rec)
}

/// Round trip: serializing a record and parsing the text back yields a
/// record equal in all fields to the original, for every record whose
/// strings need no escaping — among them every record `process` produces.
pub fn round_trip(r: &ProcessResult) -> (r2: Option<ProcessResult>)
    ensures
        serializable(r@) ==> (r2 matches Some(rec) && rec@ == r@),
{
    match to_json(r) {
        Ok(text) => {
            let parsed = from_json(text.as_str());
            proof {
                if serializable(r@) {
                    assert(canonical_text(text@, r@));
                }
            }
            parsed
        },
        Err(_) => None,
    }
}

} // verus!
