//! Keystrokes as tmux `send-keys` arguments: each byte written as `0x..`
//! in lower-case hexadecimal, followed by a space.

use vstd::prelude::*;

verus! {

/// The lower-case hexadecimal digit for `d < 16`, as an ASCII byte.
pub open spec fn hex_digit(d: int) -> u8 {
    if d < 10 {
        (0x30 + d) as u8
    } else {
        (0x61 + d - 10) as u8
    }
}

/// `0x`, the two hexadecimal digits of `b`, and a space.
pub open spec fn hex_byte(b: u8) -> Seq<u8> {
    seq![0x30, 0x78, hex_digit((b / 16) as int), hex_digit((b % 16) as int), 0x20]
}

/// The bytes of `s`, each written by [`hex_byte`], in order.
pub open spec fn hex_text(s: Seq<u8>) -> Seq<u8>
    decreases s.len(),
{
    if s.len() == 0 {
        seq![]
    } else {
        hex_text(s.drop_last()) + hex_byte(s.last())
    }
}

fn push_hex_digit(out: &mut Vec<u8>, d: u8)
    requires
        d < 16,
    ensures
        final(out)@ == old(out)@.push(hex_digit(d as int)),
{
    if d < 10 {
        out.push(d + 0x30);
    } else {
        out.push(d - 10 + 0x61);
    }
}

/// Writes `bytes` as tmux key codes: `0x` and two lower-case hexadecimal
/// digits for each byte, each followed by a space.
pub fn to_hex(bytes: &[u8]) -> (r: Vec<u8>)
    ensures
        r@ == hex_text(bytes@),
{
    let mut out: Vec<u8> = Vec::new();
    let mut i: usize = 0;
    assert(bytes@.take(0) =~= Seq::<u8>::empty());
    while i < bytes.len()
        invariant
            i <= bytes@.len(),
            out@ == hex_text(bytes@.take(i as int)),
        decreases bytes@.len() - i,
    {
        let b = bytes[i];
        let hi = b >> 4;
        let lo = b & 0xf;
        assert(hi == b / 16 && lo == b % 16) by (bit_vector)
            requires
                hi == b >> 4,
                lo == b & 0xf,
        ;
        out.push(0x30);
        out.push(0x78);
        push_hex_digit(&mut out, hi);
        push_hex_digit(&mut out, lo);
        out.push(0x20);
        assert(bytes@.take(i + 1).drop_last() =~= bytes@.take(i as int));
        assert(out@ =~= hex_text(bytes@.take(i as int)) + hex_byte(b));
        i = i + 1;
    }
    assert(bytes@.take(bytes@.len() as int) =~= bytes@);
    out
}

/// Writing two runs of keys one after the other gives the same text as
/// writing them together.
pub proof fn lemma_hex_text_concat(a: Seq<u8>, b: Seq<u8>)
    ensures
        hex_text(a + b) == hex_text(a) + hex_text(b),
    decreases b.len(),
{
    if b.len() == 0 {
        assert(a + b =~= a);
        assert(hex_text(a) + hex_text(b) =~= hex_text(a));
    } else {
        lemma_hex_text_concat(a, b.drop_last());
        assert((a + b).drop_last() =~= a + b.drop_last());
        assert(hex_text(a) + hex_text(b) =~= hex_text(a) + hex_text(b.drop_last()) + hex_byte(
            b.last(),
        ));
    }
}

/// Each byte takes five characters.
pub proof fn lemma_hex_text_len(s: Seq<u8>)
    ensures
        hex_text(s).len() == 5 * s.len(),
    decreases s.len(),
{
    if s.len() > 0 {
        lemma_hex_text_len(s.drop_last());
    }
}


/// The value of a lower-case hexadecimal digit written as an ASCII byte.
pub open spec fn hex_value(c: u8) -> int {
    if 0x30 <= c <= 0x39 {
        c - 0x30
    } else {
        c - 0x61 + 10
    }
}

/// Reads key codes back: each group of five bytes (`0x`, two digits, a
/// space) gives the byte that its two digits denote.
pub open spec fn unhex(t: Seq<u8>) -> Seq<u8>
    decreases t.len(),
{
    if t.len() < 5 {
        seq![]
    } else {
        seq![(hex_value(t[2]) * 16 + hex_value(t[3])) as u8] + unhex(t.skip(5))
    }
}

proof fn lemma_hex_text_first(s: Seq<u8>)
    requires
        s.len() > 0,
    ensures
        hex_text(s) == hex_byte(s[0]) + hex_text(s.drop_first()),
{
    lemma_hex_text_concat(seq![s[0]], s.drop_first());
    assert(seq![s[0]] + s.drop_first() =~= s);
    let one = seq![s[0]];
    assert(one.drop_last() =~= Seq::<u8>::empty());
    assert(one.last() == s[0]);
    assert(hex_text(one.drop_last()) == Seq::<u8>::empty());
    assert(hex_text(one) == hex_text(one.drop_last()) + hex_byte(one.last()));
    assert(hex_text(one) =~= hex_byte(s[0]));
}

/// Every byte becomes a group of five: `0x`, its two lower-case digits, and
/// a space; group `i` is byte `i`.
pub proof fn lemma_hex_groups(s: Seq<u8>, i: int)
    requires
        0 <= i < s.len(),
    ensures
        hex_text(s).subrange(5 * i, 5 * i + 5) == hex_byte(s[i]),
        hex_byte(s[i]) == seq![
            0x30u8,
            0x78u8,
            hex_digit((s[i] / 16) as int),
            hex_digit((s[i] % 16) as int),
            0x20u8,
        ],
    decreases s.len(),
{
    lemma_hex_text_len(s.drop_last());
    if i < s.len() - 1 {
        lemma_hex_groups(s.drop_last(), i);
        assert(hex_text(s).subrange(5 * i, 5 * i + 5) =~= hex_text(s.drop_last()).subrange(
            5 * i,
            5 * i + 5,
        ));
    } else {
        assert(hex_text(s).subrange(5 * i, 5 * i + 5) =~= hex_byte(s.last()));
    }
}

/// Key codes read back to the bytes they were written from, so no two byte
/// runs give the same text.
pub proof fn lemma_hex_reads_back(s: Seq<u8>)
    ensures
        unhex(hex_text(s)) == s,
        forall|t: Seq<u8>| #[trigger] hex_text(t) == hex_text(s) ==> t == s,
{
    lemma_hex_reads_back_once(s);
    assert forall|t: Seq<u8>| #[trigger] hex_text(t) == hex_text(s) implies t == s by {
        lemma_hex_reads_back_once(t);
    }
}

proof fn lemma_hex_reads_back_once(s: Seq<u8>)
    ensures
        unhex(hex_text(s)) == s,
    decreases s.len(),
{
    if s.len() > 0 {
        lemma_hex_text_first(s);
        lemma_hex_reads_back_once(s.drop_first());
        let t = hex_text(s);
        let b = s[0];
        let hi = (b / 16) as int;
        let lo = (b % 16) as int;
        assert(t[2] == hex_digit(hi) && t[3] == hex_digit(lo));
        assert(hi * 16 + lo == b);
        assert(t.skip(5) =~= hex_text(s.drop_first()));
        assert(unhex(t) =~= seq![b] + s.drop_first());
        assert(seq![b] + s.drop_first() =~= s);
    }
}

} // verus!
