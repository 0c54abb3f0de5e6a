//! Decimal integers as they appear on the wire: how a number is written, how a
//! run of bytes is read as a number, and that reading undoes writing.

use vstd::prelude::*;

verus! {

/// The byte `-`.
pub const MINUS: u8 = 45;

/// The byte `+`.
pub const PLUS: u8 = 43;

/// The byte `0`.
pub const ZERO: u8 = 48;

/// The byte `9`.
pub const NINE: u8 = 57;

/// Whether `b` is one of the bytes `0` to `9`.
pub open spec fn is_digit(b: u8) -> bool {
    ZERO <= b <= NINE
}

/// Whether every byte of `s` is a decimal digit.
pub open spec fn all_digits(s: Seq<u8>) -> bool {
    forall|i: int| 0 <= i < s.len() ==> is_digit(#[trigger] s[i])
}

/// The digits of `n`, most significant first, without leading zeros.
pub open spec fn nat_digits(n: nat) -> Seq<u8>
    decreases n,
{
    if n < 10 {
        seq![(ZERO + n) as u8]
    } else {
        nat_digits(n / 10).push((ZERO + n % 10) as u8)
    }
}

/// The decimal form of `n`: a leading `-` if it is negative, then its digits.
pub open spec fn int_digits(n: int) -> Seq<u8> {
    if n < 0 {
        seq![MINUS] + nat_digits((-n) as nat)
    } else {
        nat_digits(n as nat)
    }
}

/// The number that a run of digits denotes; leading zeros are allowed.
pub open spec fn digits_value(s: Seq<u8>) -> nat
    decreases s.len(),
{
    if s.len() == 0 {
        0
    } else {
        (digits_value(s.drop_last()) * 10 + (s.last() - ZERO)) as nat
    }
}

/// The integer that `s` denotes: an optional sign, `+` or `-`, then at least
/// one digit. `None` where `s` is not of that form.
pub open spec fn decimal_value(s: Seq<u8>) -> Option<int> {
    if s.len() == 0 {
        None
    } else if s[0] == MINUS || s[0] == PLUS {
        let digits = s.subrange(1, s.len() as int);
        if digits.len() > 0 && all_digits(digits) {
            if s[0] == MINUS {
                Some(-(digits_value(digits) as int))
            } else {
                Some(digits_value(digits) as int)
            }
        } else {
            None
        }
    } else if all_digits(s) {
        Some(digits_value(s) as int)
    } else {
        None
    }
}

/// What reading `s` as a signed 64-bit integer gives: its value where `s` is
/// a decimal integer in range, else `None`.
pub open spec fn decimal_i64(s: Seq<u8>) -> Option<i64> {
    match decimal_value(s) {
        Some(v) => if i64::MIN <= v <= i64::MAX {
            Some(v as i64)
        } else {
            None
        },
        None => None,
    }
}

/// What a run of digits denotes, where it is one, is not empty and denotes at
/// most `limit`; `None` otherwise.
pub open spec fn digits_up_to(s: Seq<u8>, limit: u64) -> Option<u64> {
    if s.len() > 0 && all_digits(s) && digits_value(s) <= limit {
        Some(digits_value(s) as u64)
    } else {
        None
    }
}

/// What reading `s` as an unsigned 64-bit integer gives: an optional `+`,
/// then digits that denote a number in range; `None` otherwise.
pub open spec fn unsigned_value(s: Seq<u8>) -> Option<u64> {
    if s.len() > 0 && s[0] == PLUS {
        digits_up_to(s.subrange(1, s.len() as int), u64::MAX)
    } else {
        digits_up_to(s, u64::MAX)
    }
}

/// An extension of a run of digits by one digit denotes ten times as much,
/// plus the digit.
pub proof fn lemma_digits_value_push(s: Seq<u8>, d: u8)
    requires
        is_digit(d),
    ensures
        digits_value(s.push(d)) == digits_value(s) * 10 + (d - ZERO),
{
    assert(s.push(d).drop_last() =~= s);
}

/// A run of digits denotes at least what any of its prefixes denotes.
pub proof fn lemma_digits_value_prefix(s: Seq<u8>, k: int)
    requires
        all_digits(s),
        0 <= k <= s.len(),
    ensures
        digits_value(s.subrange(0, k)) <= digits_value(s),
    decreases s.len() - k,
{
    if k == s.len() {
        assert(s.subrange(0, k) =~= s);
    } else {
        lemma_digits_value_prefix(s, k + 1);
        let longer = s.subrange(0, k + 1);
        assert(longer.drop_last() =~= s.subrange(0, k));
        assert(is_digit(s[k]));
        assert(longer.last() == s[k]);
    }
}

/// The digits of a number are digits, at least one of them, and denote it.
pub proof fn lemma_nat_digits(n: nat)
    ensures
        nat_digits(n).len() >= 1,
        all_digits(nat_digits(n)),
        digits_value(nat_digits(n)) == n,
    decreases n,
{
    if n < 10 {
        let s = nat_digits(n);
        assert(s.drop_last() =~= Seq::<u8>::empty());
        assert(digits_value(s.drop_last()) == 0);
    } else {
        lemma_nat_digits(n / 10);
        lemma_digits_value_push(nat_digits(n / 10), (ZERO + n % 10) as u8);
    }
}

/// Reading undoes writing: the decimal form of `n` denotes `n`.
pub proof fn lemma_decimal_round_trip(n: int)
    ensures
        decimal_value(int_digits(n)) == Some(n),
{
    if n < 0 {
        let m = (-n) as nat;
        lemma_nat_digits(m);
        let s = int_digits(n);
        assert(s.subrange(1, s.len() as int) =~= nat_digits(m));
    } else {
        lemma_nat_digits(n as nat);
        let s = int_digits(n);
        assert(is_digit(s[0]));
    }
}

/// The decimal form of a number holds digits and `-` only, and is not empty.
pub proof fn lemma_int_digits_bytes(n: int)
    ensures
        int_digits(n).len() >= 1,
        forall|i: int|
            0 <= i < int_digits(n).len() ==> is_digit(#[trigger] int_digits(n)[i]) || int_digits(
                n,
            )[i] == MINUS,
{
    if n < 0 {
        lemma_nat_digits((-n) as nat);
    } else {
        lemma_nat_digits(n as nat);
    }
}

/// Appends the digits of `n` to `out`.
fn push_nat_digits(out: &mut Vec<u8>, n: u64)
    ensures
        final(out)@ == old(out)@ + nat_digits(n as nat),
    decreases n,
{
    if n >= 10 {
        push_nat_digits(out, n / 10);
    }
    let d: u8 = (n % 10) as u8;
    out.push(ZERO + d);
    proof {
        if n >= 10 {
            assert(final(out)@ =~= old(out)@ + nat_digits(n as nat));
        } else {
            assert(final(out)@ =~= old(out)@ + nat_digits(n as nat));
        }
    }
}

/// Appends the decimal form of `n` to `out`.
pub fn push_decimal(out: &mut Vec<u8>, n: i64)
    ensures
        final(out)@ == old(out)@ + int_digits(n as int),
{
    if n < 0 {
        out.push(MINUS);
        let magnitude: u64 = ((-(n + 1)) as u64) + 1;
        push_nat_digits(out, magnitude);
        assert(final(out)@ =~= old(out)@ + int_digits(n as int));
    } else {
        push_nat_digits(out, n as u64);
    }
}

/// Reads `bytes[from..to]` as a run of digits that denotes at most `limit`.
fn parse_digits(bytes: &[u8], from: usize, to: usize, limit: u64) -> (r: Option<u64>)
    requires
        from <= to <= bytes@.len(),
    ensures
        r == digits_up_to(bytes@.subrange(from as int, to as int), limit),
{
    let ghost digits = bytes@.subrange(from as int, to as int);
    if from == to {
        return None;
    }
    let mut acc: u64 = 0;
    let mut i: usize = from;
    while i < to
        invariant
            from <= i <= to <= bytes@.len(),
            digits == bytes@.subrange(from as int, to as int),
            all_digits(digits.subrange(0, i - from)),
            acc == digits_value(digits.subrange(0, i - from)),
            acc <= limit,
        decreases to - i,
    {
        let b: u8 = bytes[i];
        let ghost before = digits.subrange(0, i - from);
        let ghost after = digits.subrange(0, i - from + 1);
        proof {
            assert(digits[i - from] == b);
            assert(after =~= before.push(b));
        }
        if b < ZERO || b > NINE {
            proof {
                assert(!is_digit(digits[i - from]));
            }
            return None;
        }
        let d: u64 = (b - ZERO) as u64;
        proof {
            lemma_digits_value_push(before, b);
            assert forall|j: int| 0 <= j < after.len() implies is_digit(#[trigger] after[j]) by {
                if j < before.len() {
                    assert(after[j] == before[j]);
                }
            }
        }
        if d > limit || acc > (limit - d) / 10 {
            // Ten times `acc` plus `d` is above the limit, and so is every
            // number that the digits so far begin.
            proof {
                assert(acc * 10 + d > limit) by (nonlinear_arith)
                    requires
                        d > limit || acc > (limit - d) / 10,
                        0 <= d <= 9,
                        0 <= acc,
                ;
                if all_digits(digits) {
                    lemma_digits_value_prefix(digits, i - from + 1);
                }
            }
            return None;
        }
        proof {
            assert(acc * 10 + d <= limit) by (nonlinear_arith)
                requires
                    d <= limit,
                    acc <= (limit - d) / 10,
                    0 <= d <= 9,
                    0 <= acc,
            ;
        }
        acc = acc * 10 + d;
        i = i + 1;
    }
    proof {
        assert(digits.subrange(0, to - from) =~= digits);
    }
    Some(acc)
}

/// Reads `bytes[from..to]` as a signed 64-bit decimal integer.
pub fn parse_decimal(bytes: &[u8], from: usize, to: usize) -> (r: Option<i64>)
    requires
        from <= to <= bytes@.len(),
    ensures
        r == decimal_i64(bytes@.subrange(from as int, to as int)),
{
    let ghost s = bytes@.subrange(from as int, to as int);
    if from == to {
        return None;
    }
    let first: u8 = bytes[from];
    if first == MINUS {
        assert(bytes@.subrange(from + 1, to as int) =~= s.subrange(1, s.len() as int));
        // The magnitude of a negative i64 is at most 2^63.
        match parse_digits(bytes, from + 1, to, 9223372036854775808) {
            Some(magnitude) => if magnitude == 9223372036854775808 {
                Some(i64::MIN)
            } else {
                Some(-(magnitude as i64))
            },
            None => None,
        }
    } else if first == PLUS {
        assert(bytes@.subrange(from + 1, to as int) =~= s.subrange(1, s.len() as int));
        match parse_digits(bytes, from + 1, to, 9223372036854775807) {
            Some(magnitude) => Some(magnitude as i64),
            None => None,
        }
    } else {
        match parse_digits(bytes, from, to, 9223372036854775807) {
            Some(magnitude) => Some(magnitude as i64),
            None => None,
        }
    }
}

/// Reads `bytes` as an unsigned 64-bit decimal integer.
pub fn parse_unsigned(bytes: &[u8]) -> (r: Option<u64>)
    ensures
        r == unsigned_value(bytes@),
{
    let from: usize = if bytes.len() > 0 && bytes[0] == PLUS {
        1
    } else {
        0
    };
    proof {
        if from == 0 {
            assert(bytes@.subrange(0, bytes@.len() as int) =~= bytes@);
        }
    }
    parse_digits(bytes, from, bytes.len(), 0xffff_ffff_ffff_ffff)
}

} // verus!
