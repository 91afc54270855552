//! Text helpers shared by the tools: trimming and decimal numerals.
use vstd::prelude::*;
use vstd::string::{StringExecFns, StringSliceAdditionalSpecFns};

verus! {

/// The characters of a string with its leading and trailing white space
/// removed, as `str::trim` gives them.
pub uninterp spec fn trimmed(s: Seq<char>) -> Seq<char>;

/// Relies on `str::trim`: the subslice of `s` without leading and trailing
/// white space, so never longer than `s`.
#[verifier::external_body]
pub(crate) fn trim_str(s: &str) -> (r: &str)
    ensures
        r@ == trimmed(s@),
        r.spec_bytes().len() <= s.spec_bytes().len(),
{
    s.trim()
}

/// The lines of a text without their endings, as `str::lines` gives them.
pub uninterp spec fn lines_of(s: Seq<char>) -> Seq<Seq<char>>;

/// Relies on `str::lines`: the lines of `s`, split at each `\n` (with a
/// `\r` before it dropped), in order.
#[verifier::external_body]
pub(crate) fn split_lines<'a>(s: &'a str) -> (r: Vec<&'a str>)
    ensures
        r@.len() == lines_of(s@).len(),
        forall|i: int| 0 <= i < r@.len() ==> #[trigger] r@[i]@ == lines_of(s@)[i],
{
    s.lines().collect()
}

/// The words of a text, as `str::split_whitespace` gives them.
pub uninterp spec fn words_of(s: Seq<char>) -> Seq<Seq<char>>;

/// Relies on `str::split_whitespace`: the non-empty runs of non-white-space
/// characters of `s`, in order.
#[verifier::external_body]
pub(crate) fn split_words<'a>(s: &'a str) -> (r: Vec<&'a str>)
    ensures
        r@.len() == words_of(s@).len(),
        forall|i: int| 0 <= i < r@.len() ==> #[trigger] r@[i]@ == words_of(s@)[i],
{
    s.split_whitespace().collect()
}

/// The character of a decimal digit.
pub open spec fn digit_char(d: nat) -> char {
    if d == 0 {
        '0'
    } else if d == 1 {
        '1'
    } else if d == 2 {
        '2'
    } else if d == 3 {
        '3'
    } else if d == 4 {
        '4'
    } else if d == 5 {
        '5'
    } else if d == 6 {
        '6'
    } else if d == 7 {
        '7'
    } else if d == 8 {
        '8'
    } else {
        '9'
    }
}

/// The decimal numeral of `n`, without leading zeros.
pub open spec fn decimal(n: nat) -> Seq<char>
    decreases n,
{
    if n < 10 {
        seq![digit_char(n)]
    } else {
        decimal(n / 10).push(digit_char(n % 10))
    }
}

pub(crate) fn digit_str(d: u64) -> (r: &'static str)
    requires
        d < 10,
    ensures
        r@ == seq![digit_char(d as nat)],
{
    proof {
        reveal_strlit("0");
        reveal_strlit("1");
        reveal_strlit("2");
        reveal_strlit("3");
        reveal_strlit("4");
        reveal_strlit("5");
        reveal_strlit("6");
        reveal_strlit("7");
        reveal_strlit("8");
        reveal_strlit("9");
    }
    match d {
        0 => "0",
        1 => "1",
        2 => "2",
        3 => "3",
        4 => "4",
        5 => "5",
        6 => "6",
        7 => "7",
        8 => "8",
        _ => "9",
    }
}

/// The characters of a sequence of decimal digit values.
pub open spec fn digits_text(ds: Seq<u64>) -> Seq<char> {
    ds.map_values(|d: u64| digit_char(d as nat))
}

/// The digit values of the decimal numeral of `n`, most significant first.
pub(crate) fn decimal_digits(n: u64) -> (r: Vec<u64>)
    ensures
        r@.len() >= 1,
        forall|i: int| 0 <= i < r@.len() ==> #[trigger] r@[i] < 10,
        digits_text(r@) == decimal(n as nat),
{
    // Low digits first: `low[i]` is the digit worth 10^i.
    let mut low: Vec<u64> = Vec::new();
    let ghost mut tail: Seq<char> = Seq::empty();
    let mut m: u64 = n;
    while m >= 10
        invariant
            decimal(n as nat) == decimal(m as nat) + tail,
            low@.len() == tail.len(),
            forall|i: int|
                0 <= i < low@.len() ==> #[trigger] low@[i] < 10 && tail[tail.len() - 1 - i]
                    == digit_char(low@[i] as nat),
        decreases m,
    {
        let d = m % 10;
        proof {
            assert(decimal(m as nat) == decimal((m / 10) as nat).push(digit_char(d as nat)));
            assert(decimal(m as nat) + tail =~= decimal((m / 10) as nat) + (seq![
                digit_char(d as nat),
            ] + tail));
            tail = seq![digit_char(d as nat)] + tail;
        }
        low.push(d);
        m = m / 10;
    }
    let mut r: Vec<u64> = Vec::new();
    r.push(m);
    let mut j: usize = low.len();
    while j > 0
        invariant
            j <= low@.len(),
            low@.len() == tail.len(),
            m < 10,
            decimal(n as nat) == seq![digit_char(m as nat)] + tail,
            forall|i: int|
                0 <= i < low@.len() ==> #[trigger] low@[i] < 10 && tail[tail.len() - 1 - i]
                    == digit_char(low@[i] as nat),
            r@.len() == 1 + low@.len() - j,
            forall|i: int| 0 <= i < r@.len() ==> #[trigger] r@[i] < 10,
            digits_text(r@) == seq![digit_char(m as nat)] + tail.take(low@.len() - j),
        decreases j,
    {
        j = j - 1;
        let ghost prev = r@;
        r.push(low[j]);
        proof {
            let c = digit_char(low@[j as int] as nat);
            assert(low@[j as int] < 10 && tail[tail.len() - 1 - j] == c);
            assert(digits_text(r@) =~= digits_text(prev).push(c));
            assert(tail.take(low@.len() - j) =~= tail.take(low@.len() - j - 1).push(c));
        }
    }
    assert(tail.take(tail.len() as int) =~= tail);
    r
}

/// The decimal numeral of `n`.
pub fn decimal_string(n: u64) -> (r: String)
    ensures
        r@ == decimal(n as nat),
{
    let ds = decimal_digits(n);
    let mut out = String::new();
    let mut i: usize = 0;
    while i < ds.len()
        invariant
            i <= ds@.len(),
            forall|k: int| 0 <= k < ds@.len() ==> #[trigger] ds@[k] < 10,
            out@ == digits_text(ds@.take(i as int)),
        decreases ds@.len() - i,
    {
        out.append(digit_str(ds[i]));
        i = i + 1;
        assert(out@ =~= digits_text(ds@.take(i as int)));
    }
    assert(ds@.take(ds@.len() as int) =~= ds@);
    out
}

} // verus!
