//! Hexadecimal numerals as they appear in chunk-size lines.

use vstd::prelude::*;

verus! {

/// The ASCII byte of the lower-case hexadecimal digit with value `d`.
pub open spec fn hex_digit(d: nat) -> u8
    recommends
        d < 16,
{
    if d < 10 {
        (0x30 + d) as u8
    } else {
        (0x61 + (d - 10)) as u8
    }
}

/// The numeral of `n` in base 16, most significant digit first, in lower
/// case and without a leading zero (zero itself is the single digit `0`).
pub open spec fn hex_digits(n: nat) -> Seq<u8>
    decreases n,
{
    if n < 16 {
        seq![hex_digit(n)]
    } else {
        hex_digits(n / 16).push(hex_digit(n % 16))
    }
}

/// The value of an ASCII hexadecimal digit of either case, if `b` is one.
pub open spec fn hex_digit_value(b: u8) -> Option<nat> {
    if 0x30 <= b <= 0x39 {
        Some((b - 0x30) as nat)
    } else if 0x61 <= b <= 0x66 {
        Some((b - 0x61 + 10) as nat)
    } else if 0x41 <= b <= 0x46 {
        Some((b - 0x41 + 10) as nat)
    } else {
        None
    }
}

/// Whether `b` is an ASCII hexadecimal digit.
pub open spec fn is_hex_digit(b: u8) -> bool {
    hex_digit_value(b) is Some
}

/// Whether `s` is a non-empty run of hexadecimal digits.
pub open spec fn is_hex_numeral(s: Seq<u8>) -> bool {
    s.len() > 0 && forall|i: int| 0 <= i < s.len() ==> is_hex_digit(#[trigger] s[i])
}

/// The number that the digits of `s` denote, most significant first. A byte
/// that is no digit counts as zero.
pub open spec fn hex_value(s: Seq<u8>) -> nat
    decreases s.len(),
{
    if s.len() == 0 {
        0
    } else {
        let low: nat = match hex_digit_value(s.last()) {
            Some(d) => d,
            None => 0,
        };
        hex_value(s.drop_last()) * 16 + low
    }
}

/// Every digit that `hex_digit` produces reads back as its own value.
pub proof fn lemma_hex_digit_value(d: nat)
    requires
        d < 16,
    ensures
        hex_digit_value(hex_digit(d)) == Some(d),
        is_hex_digit(hex_digit(d)),
        hex_digit(d) != 0x0d,
        hex_digit(d) != 0x0a,
{
}

/// A numeral produced by `hex_digits` is a non-empty run of digits, starts
/// with `0` only when it is the numeral of zero, and denotes the number it
/// was produced from.
pub proof fn lemma_hex_digits_value(n: nat)
    ensures
        is_hex_numeral(hex_digits(n)),
        hex_value(hex_digits(n)) == n,
        n > 0 ==> hex_digits(n)[0] != 0x30,
    decreases n,
{
    if n < 16 {
        lemma_hex_digit_value(n);
        let s = hex_digits(n);
        assert(s.drop_last() =~= Seq::<u8>::empty());
        assert(hex_value(s.drop_last()) == 0);
    } else {
        lemma_hex_digits_value(n / 16);
        lemma_hex_digit_value(n % 16);
        let s = hex_digits(n);
        assert(s.drop_last() =~= hex_digits(n / 16));
        assert(s.last() == hex_digit(n % 16));
        assert(s[0] == hex_digits(n / 16)[0]);
    }
}

fn digit_byte(d: u8) -> (b: u8)
    requires
        d < 16,
    ensures
        b == hex_digit(d as nat),
{
    if d < 10 {
        0x30 + d
    } else {
        0x61 + (d - 10)
    }
}

/// Writes `n` as a hexadecimal numeral.
pub fn encode_hex(n: usize) -> (out: Vec<u8>)
    ensures
        out@ == hex_digits(n as nat),
{
    let mut out: Vec<u8> = Vec::new();
    let mut rest: usize = n;
    while rest >= 16
        invariant
            hex_digits(n as nat) == hex_digits(rest as nat) + out@,
        decreases rest,
    {
        let low: u8 = (rest % 16) as u8;
        let ghost lower = out@;
        out.insert(0, digit_byte(low));
        proof {
            let upper = hex_digits((rest / 16) as nat);
            assert(hex_digits(rest as nat) == upper.push(hex_digit((rest % 16) as nat)));
            assert(upper.push(hex_digit((rest % 16) as nat)) + lower =~= upper + out@);
        }
        rest = rest / 16;
    }
    let ghost lower = out@;
    out.insert(0, digit_byte(rest as u8));
    assert(out@ =~= hex_digits(rest as nat) + lower);
    out
}

} // verus!
