//! Parsing for the hex file tool: byte offsets written in decimal or with a
//! `0x` prefix, and strings of hexadecimal byte pairs.
use crate::text::{decimal, decimal_string, trim_str, trimmed};
use vstd::prelude::*;
use vstd::string::{StringExecFns, StringSliceAdditionalSpecFns};

verus! {

/// Why a numeral was refused.
#[derive(Clone, Copy, Debug, PartialEq, Eq, Structural)]
pub enum IntErrorKind {
    /// There were no characters at all.
    Empty,
    /// A character is not a digit of the radix (or a sign stands alone).
    InvalidDigit,
    /// The value does not fit in 64 bits.
    PosOverflow,
}

/// The value of an ASCII digit in radix 10 or 16, if `c` is one.
pub open spec fn digit_value(c: u8, radix: u64) -> Option<u64> {
    if 48 <= c <= 57 {
        Some((c - 48) as u64)
    } else if radix == 16 && 97 <= c <= 102 {
        Some((c - 87) as u64)
    } else if radix == 16 && 65 <= c <= 70 {
        Some((c - 55) as u64)
    } else {
        None
    }
}

/// Reads digits left to right onto `acc`, stopping at the first character
/// that is not a digit or at the first digit that takes the value past
/// `max`.
pub open spec fn scan_digits(ds: Seq<u8>, radix: u64, acc: nat, max: nat) -> Result<
    u64,
    IntErrorKind,
>
    decreases ds.len(),
{
    if ds.len() == 0 {
        Ok(acc as u64)
    } else {
        match digit_value(ds[0], radix) {
            None => Err(IntErrorKind::InvalidDigit),
            Some(d) => {
                if acc * radix + d > max {
                    Err(IntErrorKind::PosOverflow)
                } else {
                    scan_digits(ds.skip(1), radix, (acc * radix + d) as nat, max)
                }
            },
        }
    }
}

/// An unsigned numeral in radix 10 or 16 whose type holds values up to
/// `max`, read as std's `from_str_radix` reads one: an optional leading `+`,
/// then at least one digit.
pub open spec fn parse_unsigned(s: Seq<u8>, radix: u64, max: nat) -> Result<u64, IntErrorKind> {
    if s.len() == 0 {
        Err(IntErrorKind::Empty)
    } else if (s[0] == 43 || s[0] == 45) && s.len() == 1 {
        Err(IntErrorKind::InvalidDigit)
    } else if s[0] == 43 {
        scan_digits(s.skip(1), radix, 0, max)
    } else {
        scan_digits(s, radix, 0, max)
    }
}

/// The wording of each refusal.
pub open spec fn error_text(k: IntErrorKind) -> Seq<char> {
    match k {
        IntErrorKind::Empty => "cannot parse integer from empty string"@,
        IntErrorKind::InvalidDigit => "invalid digit found in string"@,
        IntErrorKind::PosOverflow => "number too large to fit in target type"@,
    }
}

pub(crate) fn error_str(k: IntErrorKind) -> (r: &'static str)
    ensures
        r@ == error_text(k),
{
    proof {
        reveal_strlit("cannot parse integer from empty string");
        reveal_strlit("invalid digit found in string");
        reveal_strlit("number too large to fit in target type");
    }
    match k {
        IntErrorKind::Empty => "cannot parse integer from empty string",
        IntErrorKind::InvalidDigit => "invalid digit found in string",
        IntErrorKind::PosOverflow => "number too large to fit in target type",
    }
}

fn digit_of(c: u8, radix: u64) -> (r: Option<u64>)
    requires
        radix == 10 || radix == 16,
    ensures
        r == digit_value(c, radix),
{
    if 48 <= c && c <= 57 {
        Some((c - 48) as u64)
    } else if radix == 16 && 97 <= c && c <= 102 {
        Some((c - 87) as u64)
    } else if radix == 16 && 65 <= c && c <= 70 {
        Some((c - 55) as u64)
    } else {
        None
    }
}

/// Reads the unsigned numeral `b[start..end]` in radix 10 or 16, for a type
/// whose largest value is `max`.
pub fn parse_unsigned_range(b: &[u8], start: usize, end: usize, radix: u64, max: u64) -> (r:
    Result<u64, IntErrorKind>)
    requires
        start <= end <= b@.len(),
        radix == 10 || radix == 16,
    ensures
        r == parse_unsigned(b@.subrange(start as int, end as int), radix, max as nat),
        r is Ok ==> r->Ok_0 <= max,
{
    let ghost s = b@.subrange(start as int, end as int);
    if start == end {
        return Err(IntErrorKind::Empty);
    }
    if (b[start] == 43 || b[start] == 45) && end - start == 1 {
        return Err(IntErrorKind::InvalidDigit);
    }
    let mut i: usize = start;
    if b[start] == 43 {
        i = start + 1;
        assert(s.skip(1) =~= b@.subrange(i as int, end as int));
    } else {
        assert(s =~= b@.subrange(i as int, end as int));
    }
    let mut acc: u64 = 0;
    while i < end
        invariant
            start <= i <= end <= b@.len(),
            radix == 10 || radix == 16,
            s == b@.subrange(start as int, end as int),
            acc <= max,
            parse_unsigned(s, radix, max as nat) == scan_digits(
                b@.subrange(i as int, end as int),
                radix,
                acc as nat,
                max as nat,
            ),
        decreases end - i,
    {
        let ghost rest = b@.subrange(i as int, end as int);
        assert(rest.len() > 0 && rest[0] == b@[i as int]);
        match digit_of(b[i], radix) {
            None => {
                return Err(IntErrorKind::InvalidDigit);
            },
            Some(d) => {
                match acc.checked_mul(radix) {
                    None => {
                        assert(acc * radix + d > max) by (nonlinear_arith)
                            requires
                                acc * radix > u64::MAX,
                                d >= 0,
                                max <= u64::MAX,
                        ;
                        return Err(IntErrorKind::PosOverflow);
                    },
                    Some(m) => {
                        match m.checked_add(d) {
                            None => {
                                return Err(IntErrorKind::PosOverflow);
                            },
                            Some(next) => {
                                if next > max {
                                    return Err(IntErrorKind::PosOverflow);
                                }
                                assert(rest.skip(1) =~= b@.subrange(i + 1, end as int));
                                acc = next;
                            },
                        }
                    },
                }
            },
        }
        i = i + 1;
    }
    Ok(acc)
}

/// Whether the text starts with `0x` or `0X`.
pub open spec fn has_hex_prefix(b: Seq<u8>) -> bool {
    b.len() >= 2 && b[0] == 48 && (b[1] == 120 || b[1] == 88)
}

/// An offset as the tool reads it: hexadecimal after a `0x` or `0X` prefix,
/// decimal otherwise, with the refusal worded for the form that was tried.
pub open spec fn offset_value(b: Seq<u8>) -> Result<u64, Seq<char>> {
    if has_hex_prefix(b) {
        match parse_unsigned(b.skip(2), 16, u64::MAX as nat) {
            Ok(v) => Ok(v),
            Err(k) => Err("Invalid hex offset: "@ + error_text(k)),
        }
    } else {
        match parse_unsigned(b, 10, u64::MAX as nat) {
            Ok(v) => Ok(v),
            Err(k) => Err("Invalid decimal offset: "@ + error_text(k)),
        }
    }
}

/// Reads a byte offset: hexadecimal after `0x` or `0X`, decimal otherwise.
pub fn parse_offset(s: &str) -> (r: Result<u64, String>)
    ensures
        r is Ok <==> offset_value(s.spec_bytes()) is Ok,
        r is Ok ==> r->Ok_0 == offset_value(s.spec_bytes())->Ok_0,
        r is Err ==> r->Err_0@ == offset_value(s.spec_bytes())->Err_0,
{
    proof {
        reveal_strlit("Invalid hex offset: ");
        reveal_strlit("Invalid decimal offset: ");
    }
    let b = s.as_bytes();
    let hex = b.len() >= 2 && b[0] == 48 && (b[1] == 120 || b[1] == 88);
    let parsed = if hex {
        assert(b@.subrange(2, b@.len() as int) =~= b@.skip(2));
        parse_unsigned_range(b, 2, b.len(), 16, u64::MAX)
    } else {
        assert(b@.subrange(0, b@.len() as int) =~= b@);
        parse_unsigned_range(b, 0, b.len(), 10, u64::MAX)
    };
    match parsed {
        Ok(v) => Ok(v),
        Err(k) => {
            let mut m = String::new();
            if hex {
                m.append("Invalid hex offset: ");
            } else {
                m.append("Invalid decimal offset: ");
            }
            m.append(error_str(k));
            Err(m)
        },
    }
}

/// The refusal of the byte pair that starts at `pos`.
pub open spec fn pair_error(pos: nat, k: IntErrorKind) -> Seq<char> {
    "Invalid hex at position "@ + decimal(pos) + ": "@ + error_text(k)
}

/// The bytes of the pairs from `i` on, each pair read as a hexadecimal
/// numeral, or the refusal of the first pair that is not one.
pub open spec fn decode_pairs(b: Seq<u8>, i: nat) -> Result<Seq<u8>, Seq<char>>
    decreases b.len() - i,
{
    if i + 2 > b.len() {
        Ok(seq![])
    } else {
        match parse_unsigned(b.subrange(i as int, i + 2int), 16, 255) {
            Err(k) => Err(pair_error(i, k)),
            Ok(v) => match decode_pairs(b, i + 2) {
                Ok(rest) => Ok(seq![v as u8] + rest),
                Err(m) => Err(m),
            },
        }
    }
}

/// A string of hexadecimal byte pairs read as bytes: refused if its length
/// is odd, else the bytes of its pairs.
pub open spec fn hex_decode(b: Seq<u8>) -> Result<Seq<u8>, Seq<char>> {
    if b.len() % 2 == 1 {
        Err("Hex string must have even length"@)
    } else {
        decode_pairs(b, 0)
    }
}

/// `acc` followed by what `r` holds, or `r`'s refusal.
pub open spec fn after(acc: Seq<u8>, r: Result<Seq<u8>, Seq<char>>) -> Result<Seq<u8>, Seq<char>> {
    match r {
        Ok(rest) => Ok(acc + rest),
        Err(m) => Err(m),
    }
}

/// Reads bytes written as hexadecimal pairs (`"0aff"` is `[0x0a, 0xff]`).
pub fn decode_hex_bytes(b: &[u8]) -> (r: Result<Vec<u8>, String>)
    ensures
        r is Ok <==> hex_decode(b@) is Ok,
        r is Ok ==> r->Ok_0@ == hex_decode(b@)->Ok_0,
        r is Err ==> r->Err_0@ == hex_decode(b@)->Err_0,
{
    proof {
        reveal_strlit("Hex string must have even length");
        reveal_strlit("Invalid hex at position ");
        reveal_strlit(": ");
    }
    if b.len() % 2 == 1 {
        let mut m = String::new();
        m.append("Hex string must have even length");
        return Err(m);
    }
    let mut out: Vec<u8> = Vec::new();
    let mut i: usize = 0;
    while i < b.len()
        invariant
            i <= b@.len(),
            i % 2 == 0,
            b@.len() % 2 == 0,
            hex_decode(b@) == after(out@, decode_pairs(b@, i as nat)),
        decreases b@.len() - i,
    {
        match parse_unsigned_range(b, i, i + 2, 16, 255) {
            Err(k) => {
                let mut m = String::new();
                m.append("Invalid hex at position ");
                let pos = decimal_string(i as u64);
                m.append(pos.as_str());
                m.append(": ");
                m.append(error_str(k));
                return Err(m);
            },
            Ok(v) => {
                let ghost before = out@;
                out.push(v as u8);
                proof {
                    let r = decode_pairs(b@, (i + 2) as nat);
                    assert(after(before, decode_pairs(b@, i as nat)) == after(out@, r)) by {
                        if r is Ok {
                            assert(before + (seq![v as u8] + r->Ok_0) =~= out@ + r->Ok_0);
                        }
                    }
                }
                i = i + 2;
            },
        }
    }
    assert(out@ + seq![] =~= out@);
    Ok(out)
}

/// Reads bytes from hexadecimal pairs, ignoring white space around them.
pub fn hex_to_bytes(hex: &str) -> (r: Result<Vec<u8>, String>)
    ensures
        r is Ok <==> hex_decode(vstd::utf8::encode_utf8(trimmed(hex@))) is Ok,
        r is Ok ==> r->Ok_0@ == hex_decode(vstd::utf8::encode_utf8(trimmed(hex@)))->Ok_0,
        r is Err ==> r->Err_0@ == hex_decode(vstd::utf8::encode_utf8(trimmed(hex@)))->Err_0,
{
    let t = trim_str(hex);
    decode_hex_bytes(t.as_bytes())
}

} // verus!
