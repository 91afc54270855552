//! Number formatting for the word-frequency report.
use crate::text::{decimal, decimal_digits, digit_str, digits_text};
use vstd::prelude::*;
use vstd::string::StringExecFns;

verus! {

/// The digits after the leading group, with a comma before every group of
/// three.
pub open spec fn with_commas(rest: Seq<char>) -> Seq<char>
    decreases rest.len(),
{
    if rest.len() < 3 {
        seq![]
    } else {
        with_commas(rest.take(rest.len() - 3)) + seq![','] + rest.skip(rest.len() - 3)
    }
}

/// The length of the leading group of a numeral of `len` digits: one to
/// three digits, so that the rest splits into groups of three.
pub open spec fn lead_len(len: nat) -> int {
    if len % 3 == 0 {
        3
    } else {
        (len % 3) as int
    }
}

/// A numeral with a comma between groups of three digits, counted from the
/// right.
pub open spec fn grouped(ds: Seq<char>) -> Seq<char> {
    ds.take(lead_len(ds.len())) + with_commas(ds.skip(lead_len(ds.len())))
}

/// The decimal numeral of `n` with thousands separated by commas, as in
/// `1,234,567`.
pub fn format_number(n: usize) -> (r: String)
    ensures
        r@ == grouped(decimal(n as nat)),
{
    let ds = decimal_digits(n as u64);
    let ghost text = digits_text(ds@);
    let len = ds.len();
    let mut first_len: usize = len % 3;
    if first_len == 0 {
        first_len = 3;
    }
    let mut out = String::new();
    let mut i: usize = 0;
    while i < first_len
        invariant
            i <= first_len <= len,
            len == ds@.len(),
            text == digits_text(ds@),
            forall|k: int| 0 <= k < ds@.len() ==> #[trigger] ds@[k] < 10,
            out@ == text.take(i as int),
        decreases first_len - i,
    {
        out.append(digit_str(ds[i]));
        i = i + 1;
        assert(out@ =~= text.take(i as int));
    }
    let ghost lead = text.take(first_len as int);
    while i < len
        invariant
            first_len <= i <= len,
            len == ds@.len(),
            text == digits_text(ds@),
            lead == text.take(first_len as int),
            (i - first_len) % 3 == 0,
            len == first_len || (len - first_len) % 3 == 0,
            forall|k: int| 0 <= k < ds@.len() ==> #[trigger] ds@[k] < 10,
            out@ == lead + with_commas(text.subrange(first_len as int, i as int)),
        decreases len - i,
    {
        out.append(",");
        out.append(digit_str(ds[i]));
        out.append(digit_str(ds[i + 1]));
        out.append(digit_str(ds[i + 2]));
        proof {
            reveal_strlit(",");
            let piece = text.subrange(first_len as int, i + 3);
            assert(piece.take(piece.len() - 3) =~= text.subrange(first_len as int, i as int));
            assert(piece.skip(piece.len() - 3) =~= text.subrange(i as int, i + 3));
        }
        i = i + 3;
        assert(out@ =~= lead + with_commas(text.subrange(first_len as int, i as int)));
    }
    assert(text.subrange(first_len as int, len as int) =~= text.skip(first_len as int));
    out
}

} // verus!
