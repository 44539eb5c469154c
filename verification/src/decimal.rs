//! Decimal numbers written in ASCII: recognising digit runs, reading them as
//! `u64` values, and writing `u64` values back out.

use vstd::prelude::*;

verus! {

/// `b` is one of the ASCII digits `0` to `9`.
pub open spec fn is_digit(b: u8) -> bool {
    0x30 <= b <= 0x39
}

/// Every byte of `s` is an ASCII digit.
pub open spec fn all_digits(s: Seq<u8>) -> bool {
    forall|i: int| 0 <= i < s.len() ==> is_digit(#[trigger] s[i])
}

/// The number that the ASCII digits `s` denote in base ten (0 for no digits).
pub open spec fn digits_value(s: Seq<u8>) -> nat
    decreases s.len(),
{
    if s.len() == 0 {
        0
    } else {
        digits_value(s.drop_last()) * 10 + (s.last() - 0x30) as nat
    }
}

/// What `u64::from_str` gives for the bytes `s`: an optional `+` followed by
/// at least one digit, with a value that fits in 64 bits.
pub open spec fn spec_parse_u64(s: Seq<u8>) -> Option<u64> {
    let digits = if s.len() > 0 && s[0] == 0x2b { s.drop_first() } else { s };
    if digits.len() > 0 && all_digits(digits) && digits_value(digits) <= u64::MAX {
        Some(digits_value(digits) as u64)
    } else {
        None
    }
}

/// The shortest decimal spelling of `n` (no sign, no leading zeros).
pub open spec fn decimal(n: nat) -> Seq<u8>
    decreases n,
{
    if n < 10 {
        seq![(0x30 + n) as u8]
    } else {
        decimal(n / 10).push((0x30 + n % 10) as u8)
    }
}

proof fn lemma_digits_value_push(s: Seq<u8>, d: u8)
    ensures
        digits_value(s.push(d)) == digits_value(s) * 10 + (d - 0x30) as nat,
{
    assert(s.push(d).drop_last() =~= s);
}

proof fn lemma_digits_value_prefix(s: Seq<u8>, k: int)
    requires
        0 <= k <= s.len(),
        all_digits(s),
    ensures
        digits_value(s.take(k)) <= digits_value(s),
    decreases s.len(),
{
    if k < s.len() {
        assert(all_digits(s.drop_last()));
        lemma_digits_value_prefix(s.drop_last(), k);
        assert(s.drop_last().take(k) =~= s.take(k));
        lemma_digits_value_push(s.drop_last(), s.last());
        assert(s.drop_last().push(s.last()) =~= s);
    } else {
        assert(s.take(k) =~= s);
    }
}

/// Reads the digits `bytes[start..end]` as a number; `None` when the value
/// does not fit in a `u64`.
pub fn digits_to_u64(bytes: &[u8], start: usize, end: usize) -> (r: Option<u64>)
    requires
        start <= end <= bytes@.len(),
        all_digits(bytes@.subrange(start as int, end as int)),
    ensures
        match r {
            Some(v) => v as nat == digits_value(bytes@.subrange(start as int, end as int)),
            None => digits_value(bytes@.subrange(start as int, end as int)) > u64::MAX,
        },
{
    let mut acc: u64 = 0;
    let mut i: usize = start;
    assert(bytes@.subrange(start as int, start as int) =~= Seq::<u8>::empty());
    while i < end
        invariant
            start <= i <= end <= bytes@.len(),
            all_digits(bytes@.subrange(start as int, end as int)),
            acc as nat == digits_value(bytes@.subrange(start as int, i as int)),
        decreases end - i,
    {
        let d = bytes[i];
        assert(bytes@.subrange(start as int, end as int)[i - start] == d);
        proof {
            lemma_digits_value_push(bytes@.subrange(start as int, i as int), d);
            assert(bytes@.subrange(start as int, i as int).push(d) =~= bytes@.subrange(
                start as int,
                i + 1,
            ));
        }
        if acc > (u64::MAX - (d - 0x30) as u64) / 10 {
            proof {
                lemma_digits_value_prefix(bytes@.subrange(start as int, end as int), i + 1 - start);
                assert(bytes@.subrange(start as int, end as int).take(i + 1 - start) =~= bytes@.subrange(
                    start as int,
                    i + 1,
                ));
            }
            return None;
        }
        acc = acc * 10 + (d - 0x30) as u64;
        i = i + 1;
    }
    Some(acc)
}

/// `u64::from_str` on ASCII bytes: an optional `+` followed by decimal digits.
pub fn parse_u64(bytes: &[u8]) -> (r: Option<u64>)
    ensures
        r == spec_parse_u64(bytes@),
{
    let start: usize = if bytes.len() > 0 && bytes[0] == 0x2b { 1 } else { 0 };
    let ghost digits = bytes@.subrange(start as int, bytes@.len() as int);
    assert(digits =~= if bytes@.len() > 0 && bytes@[0] == 0x2b {
        bytes@.drop_first()
    } else {
        bytes@
    });
    if start == bytes.len() {
        return None;
    }
    let mut i: usize = start;
    while i < bytes.len()
        invariant
            start <= i <= bytes@.len(),
            forall|k: int| start <= k < i ==> is_digit(#[trigger] bytes@[k]),
            digits == bytes@.subrange(start as int, bytes@.len() as int),
            digits == (if bytes@.len() > 0 && bytes@[0] == 0x2b {
                bytes@.drop_first()
            } else {
                bytes@
            }),
            digits.len() > 0,
        decreases bytes@.len() - i,
    {
        if !(0x30 <= bytes[i] && bytes[i] <= 0x39) {
            assert(digits[i - start] == bytes@[i as int]);
            return None;
        }
        i = i + 1;
    }
    assert(all_digits(digits));
    digits_to_u64(bytes, start, bytes.len())
}

/// Appends the decimal spelling of `n` to `out`.
pub fn push_decimal(out: &mut Vec<u8>, n: u64)
    ensures
        final(out)@ == old(out)@ + decimal(n as nat),
    decreases n,
{
    if n < 10 {
        out.push((0x30 + n) as u8);
    } else {
        push_decimal(out, n / 10);
        out.push((0x30 + n % 10) as u8);
    }
    assert(out@ =~= old(out)@ + decimal(n as nat));
}

/// The decimal spelling of `n` is a non-empty run of digits denoting `n`.
pub proof fn lemma_decimal_digits(n: nat)
    ensures
        decimal(n).len() > 0,
        all_digits(decimal(n)),
        digits_value(decimal(n)) == n,
        decimal(n)[0] != 0x2b,
    decreases n,
{
    if n >= 10 {
        lemma_decimal_digits(n / 10);
        let d = decimal(n / 10);
        lemma_digits_value_push(d, (0x30 + n % 10) as u8);
        assert(decimal(n).drop_last() =~= d);
        assert forall|i: int| 0 <= i < decimal(n).len() implies is_digit(#[trigger] decimal(n)[i]) by {
            if i < d.len() {
                assert(decimal(n)[i] == d[i]);
            }
        }
        assert(decimal(n)[0] == d[0]);
        assert(decimal(n) == d.push((0x30 + n % 10) as u8));
        assert(((0x30 + n % 10) as u8 - 0x30) as nat == n % 10);
        assert(digits_value(decimal(n)) == digits_value(d) * 10 + n % 10);
        assert((n / 10) * 10 + n % 10 == n) by (nonlinear_arith);
    } else {
        assert(decimal(n).drop_last() =~= Seq::<u8>::empty());
        assert(decimal(n) == seq![(0x30 + n) as u8]);
        assert(digits_value(decimal(n)) == digits_value(Seq::<u8>::empty()) * 10 + n);
    }
}

/// Reading back the decimal spelling of a number gives the number: what
/// [`push_decimal`] writes, [`parse_u64`] reads.
pub proof fn lemma_parse_decimal(n: u64)
    ensures
        spec_parse_u64(decimal(n as nat)) == Some(n),
{
    lemma_decimal_digits(n as nat);
}

} // verus!
