//! Byte-level text handling for the tmux control protocol: finding bytes,
//! splitting on a separator, trimming Unicode whitespace from UTF-8, and
//! the character-boundary rule that `str` slicing enforces.

use vstd::prelude::*;
use vstd::string::StringSliceAdditionalSpecFns;
use vstd::utf8::{decode_utf8, is_char_boundary, is_continuation_byte, valid_utf8};

verus! {

/// The index of the first `b` in `s`, or `s.len()` when there is none.
pub open spec fn find_byte(s: Seq<u8>, b: u8) -> int
    decreases s.len(),
{
    if s.len() == 0 {
        0
    } else if s[0] == b {
        0
    } else {
        1 + find_byte(s.drop_first(), b)
    }
}

/// [`find_byte`] is the index of the first `b`, or the length.
pub proof fn lemma_find_byte(s: Seq<u8>, b: u8)
    ensures
        0 <= find_byte(s, b) <= s.len(),
        forall|k: int| 0 <= k < find_byte(s, b) ==> s[k] != b,
        find_byte(s, b) < s.len() ==> s[find_byte(s, b)] == b,
    decreases s.len(),
{
    if s.len() > 0 && s[0] != b {
        lemma_find_byte(s.drop_first(), b);
        assert forall|k: int| 0 <= k < find_byte(s, b) implies s[k] != b by {
            if k > 0 {
                assert(s[k] == s.drop_first()[k - 1]);
            }
        }
    }
}

/// The first `b` in `s` is at `j`.
pub proof fn lemma_find_byte_at(s: Seq<u8>, b: u8, j: int)
    requires
        0 <= j <= s.len(),
        j < s.len() ==> s[j] == b,
        forall|k: int| 0 <= k < j ==> s[k] != b,
    ensures
        find_byte(s, b) == j,
{
    lemma_find_byte(s, b);
    let f = find_byte(s, b);
    if f < j {
        assert(s[f] == b);
    }
    if f > j {
        assert(s[j] != b);
    }
}

/// The index of the first `b` in `s[from..]`, or `s.len()` when there is none.
pub fn find_byte_from(s: &[u8], from: usize, b: u8) -> (r: usize)
    requires
        from <= s@.len(),
    ensures
        r == from + find_byte(s@.subrange(from as int, s@.len() as int), b),
        from <= r <= s@.len(),
{
    let ghost t = s@.subrange(from as int, s@.len() as int);
    proof {
        lemma_find_byte(t, b);
    }
    let mut i: usize = from;
    while i < s.len() && s[i] != b
        invariant
            from <= i <= s@.len(),
            t == s@.subrange(from as int, s@.len() as int),
            0 <= find_byte(t, b) <= t.len(),
            forall|k: int| 0 <= k < find_byte(t, b) ==> t[k] != b,
            find_byte(t, b) < t.len() ==> t[find_byte(t, b)] == b,
            forall|k: int| from <= k < i ==> s@[k] != b,
        decreases s@.len() - i,
    {
        i = i + 1;
    }
    assert(i - from == find_byte(t, b)) by {
        if i - from < find_byte(t, b) {
            assert(t[i - from] == s@[i as int]);
        }
        if i - from > find_byte(t, b) {
            assert(t[find_byte(t, b)] == s@[from + find_byte(t, b)]);
        }
    }
    i
}

/// The pieces of `s` between the separators `sep`, in order (the pieces
/// that `<[u8]>::split` yields: one more than there are separators).
pub open spec fn split_on(s: Seq<u8>, sep: u8) -> Seq<Seq<u8>>
    decreases s.len(),
{
    let n = find_byte(s, sep);
    proof {
        lemma_find_byte(s, sep);
    }
    if n < s.len() {
        seq![s.take(n)] + split_on(s.skip(n + 1), sep)
    } else {
        seq![s]
    }
}

/// `a` and `b` hold the same bytes.
pub fn bytes_eq(a: &[u8], b: &[u8]) -> (r: bool)
    ensures
        r == (a@ == b@),
{
    if a.len() != b.len() {
        return false;
    }
    let mut i: usize = 0;
    while i < a.len()
        invariant
            a@.len() == b@.len(),
            0 <= i <= a@.len(),
            forall|k: int| 0 <= k < i ==> a@[k] == b@[k],
        decreases a@.len() - i,
    {
        if a[i] != b[i] {
            return false;
        }
        i = i + 1;
    }
    assert(a@ =~= b@);
    true
}

/* Unicode whitespace (the White_Space property), as UTF-8 bytes:
   U+0009..U+000D and U+0020 (one byte), U+0085 and U+00A0 (two bytes),
   U+1680, U+2000..U+200A, U+2028, U+2029, U+202F, U+205F, U+3000 (three). */

/// The three bytes encode a White_Space character.
pub open spec fn is_space3(a: u8, b: u8, c: u8) -> bool {
    ||| (a == 0xe1 && b == 0x9a && c == 0x80)
    ||| (a == 0xe2 && b == 0x80 && ((0x80 <= c <= 0x8a) || c == 0xa8 || c == 0xa9 || c == 0xaf))
    ||| (a == 0xe2 && b == 0x81 && c == 0x9f)
    ||| (a == 0xe3 && b == 0x80 && c == 0x80)
}

/// The length of the encoding of a White_Space character that starts at
/// `i`, or 0 when none starts there.
pub open spec fn space_len_at(s: Seq<u8>, i: int) -> int {
    if 0 <= i < s.len() && ((0x09 <= s[i] <= 0x0d) || s[i] == 0x20) {
        1
    } else if 0 <= i && i + 1 < s.len() && s[i] == 0xc2 && (s[i + 1] == 0x85 || s[i + 1] == 0xa0) {
        2
    } else if 0 <= i && i + 2 < s.len() && is_space3(s[i], s[i + 1], s[i + 2]) {
        3
    } else {
        0
    }
}

/// The length of the encoding of a White_Space character that ends just
/// before `j`, or 0 when none ends there.
pub open spec fn space_len_before(s: Seq<u8>, j: int) -> int {
    if 1 <= j <= s.len() && ((0x09 <= s[j - 1] <= 0x0d) || s[j - 1] == 0x20) {
        1
    } else if 2 <= j <= s.len() && s[j - 2] == 0xc2 && (s[j - 1] == 0x85 || s[j - 1] == 0xa0) {
        2
    } else if 3 <= j <= s.len() && is_space3(s[j - 3], s[j - 2], s[j - 1]) {
        3
    } else {
        0
    }
}

/// Where the text starting at `i` begins once leading whitespace is skipped.
pub open spec fn trim_start_from(s: Seq<u8>, i: int) -> int
    decreases s.len() - i,
{
    if 0 <= i < s.len() && space_len_at(s, i) > 0 {
        trim_start_from(s, i + space_len_at(s, i))
    } else {
        i
    }
}

/// Where the text `s[lo..j]` ends once trailing whitespace is dropped.
pub open spec fn trim_end_from(s: Seq<u8>, lo: int, j: int) -> int
    decreases j,
{
    if j > lo && space_len_before(s, j) > 0 && j - space_len_before(s, j) >= lo {
        trim_end_from(s, lo, j - space_len_before(s, j))
    } else {
        j
    }
}

/// `str::trim` on the UTF-8 text `s`: leading and trailing White_Space
/// characters removed.
pub open spec fn trim(s: Seq<u8>) -> Seq<u8> {
    let a = trim_start_from(s, 0);
    s.subrange(a, trim_end_from(s, a, s.len() as int))
}

fn space_len_at_exec(s: &[u8], i: usize) -> (r: usize)
    requires
        i < s@.len(),
    ensures
        r == space_len_at(s@, i as int),
{
    let a = s[i];
    if (0x09 <= a && a <= 0x0d) || a == 0x20 {
        1
    } else if i + 1 < s.len() && a == 0xc2 && (s[i + 1] == 0x85 || s[i + 1] == 0xa0) {
        2
    } else if s.len() - i > 2 && is_space3_exec(a, s[i + 1], s[i + 2]) {
        3
    } else {
        0
    }
}

fn is_space3_exec(a: u8, b: u8, c: u8) -> (r: bool)
    ensures
        r == is_space3(a, b, c),
{
    (a == 0xe1 && b == 0x9a && c == 0x80) || (a == 0xe2 && b == 0x80 && ((0x80 <= c && c <= 0x8a)
        || c == 0xa8 || c == 0xa9 || c == 0xaf)) || (a == 0xe2 && b == 0x81 && c == 0x9f) || (a
        == 0xe3 && b == 0x80 && c == 0x80)
}

fn space_len_before_exec(s: &[u8], j: usize) -> (r: usize)
    requires
        1 <= j <= s@.len(),
    ensures
        r == space_len_before(s@, j as int),
{
    let a = s[j - 1];
    if (0x09 <= a && a <= 0x0d) || a == 0x20 {
        1
    } else if j >= 2 && s[j - 2] == 0xc2 && (a == 0x85 || a == 0xa0) {
        2
    } else if j >= 3 && is_space3_exec(s[j - 3], s[j - 2], a) {
        3
    } else {
        0
    }
}

/// The bounds `(a, b)` of `s` once leading and trailing whitespace are
/// removed: `s[a..b]` is the trimmed text.
pub fn trim_bounds(s: &[u8]) -> (r: (usize, usize))
    ensures
        r.0 <= r.1 <= s@.len(),
        s@.subrange(r.0 as int, r.1 as int) == trim(s@),
{
    let mut a: usize = 0;
    while a < s.len() && space_len_at_exec(s, a) > 0
        invariant
            a <= s@.len(),
            trim_start_from(s@, a as int) == trim_start_from(s@, 0),
        decreases s@.len() - a,
    {
        a = a + space_len_at_exec(s, a);
    }
    let mut b: usize = s.len();
    while b > a && space_len_before_exec(s, b) > 0 && b - space_len_before_exec(s, b) >= a
        invariant
            a <= b <= s@.len(),
            trim_start_from(s@, a as int) == a,
            trim_end_from(s@, a as int, b as int) == trim_end_from(s@, a as int, s@.len() as int),
        decreases b,
    {
        b = b - space_len_before_exec(s, b);
    }
    (a, b)
}

/// `str::is_char_boundary(i)` for `0 < i` on UTF-8 bytes, which is what
/// `&s[i..]` requires: `i` is the end, or the byte at `i` starts a character.
pub open spec fn slices_at(s: Seq<u8>, i: int) -> bool {
    i == s.len() || (i < s.len() && !is_continuation_byte(s[i]))
}

/// Converts UTF-8 bytes to a string slice with `std::str::from_utf8`.
///
/// Trusted: `from_utf8` succeeds exactly on valid UTF-8 (as `valid_utf8`
/// defines it), and the string it returns has exactly the given bytes.
#[verifier::external_body]
pub(crate) fn str_from_utf8(b: &[u8]) -> (r: Option<&str>)
    ensures
        r is Some <==> valid_utf8(b@),
        r matches Some(s) ==> s.spec_bytes() == b@,
{
    std::str::from_utf8(b).ok()
}

/// A piece of valid UTF-8 between two ASCII bytes (or the ends) is valid
/// UTF-8 too.
pub proof fn lemma_valid_piece(s: Seq<u8>, a: int, b: int)
    requires
        valid_utf8(s),
        0 <= a <= b <= s.len(),
        a == 0 || s[a - 1] < 0x80,
        b == s.len() || s[b] < 0x80,
    ensures
        valid_utf8(s.subrange(a, b)),
{
    broadcast use vstd::utf8::is_char_boundary_start_end_of_seq;
    let t = if a == 0 {
        s
    } else {
        vstd::utf8::is_char_boundary_iff_not_is_continuation_byte(s, a - 1);
        vstd::utf8::valid_utf8_split(s, a - 1);
        let u = s.subrange(a - 1, s.len() as int);
        reveal_with_fuel(valid_utf8, 2);
        assert(u.subrange(1, u.len() as int) =~= s.subrange(a, s.len() as int));
        s.subrange(a, s.len() as int)
    };
    assert(valid_utf8(t));
    assert(t =~= s.subrange(a, s.len() as int));
    let k = b - a;
    if k < t.len() {
        assert(t[k] == s[b]);
        vstd::utf8::is_char_boundary_iff_not_is_continuation_byte(t, k);
    } else {
        assert(is_char_boundary(t, k));
    }
    vstd::utf8::valid_utf8_split(t, k);
    assert(t.subrange(0, k) =~= s.subrange(a, b));
}

/// The characters of ASCII bytes.
pub open spec fn ascii_chars(b: Seq<u8>) -> Seq<char> {
    b.map_values(|x: u8| x as char)
}

/// ASCII bytes are valid UTF-8 and stand for the characters with their codes.
pub proof fn lemma_ascii_utf8(b: Seq<u8>)
    requires
        forall|i: int| 0 <= i < b.len() ==> #[trigger] b[i] < 0x80,
    ensures
        valid_utf8(b),
        decode_utf8(b) == ascii_chars(b),
    decreases b.len(),
{
    if b.len() > 0 {
        let x = b[0];
        assert(x & 0x7f == x) by (bit_vector)
            requires
                x < 0x80,
        ;
        let rest = b.subrange(1, b.len() as int);
        lemma_ascii_utf8(rest);
        assert(vstd::utf8::pop_first_scalar(b) == rest);
        assert(ascii_chars(b) =~= seq![x as char] + ascii_chars(rest));
    } else {
        assert(ascii_chars(b) =~= Seq::<char>::empty());
    }
}

/// ASCII bytes without a space: a word of a control-mode line.
pub open spec fn is_word(w: Seq<u8>) -> bool {
    forall|i: int| 0 <= i < w.len() ==> #[trigger] w[i] < 0x80 && w[i] != 0x20
}

/// A word is the only piece of itself.
pub proof fn lemma_split_word(a: Seq<u8>)
    requires
        is_word(a),
    ensures
        split_on(a, 0x20) == seq![a],
{
    lemma_find_byte_at(a, 0x20, a.len() as int);
    assert(a.take(a.len() as int) =~= a);
}

/// A word followed by a space is the first piece.
pub proof fn lemma_split_word_space(a: Seq<u8>, b: Seq<u8>)
    requires
        is_word(a),
    ensures
        split_on(a + seq![0x20] + b, 0x20) == seq![a] + split_on(b, 0x20),
{
    let s = a + seq![0x20] + b;
    assert forall|k: int| 0 <= k < a.len() implies s[k] != 0x20 by {
        assert(s[k] == a[k]);
    }
    assert(s[a.len() as int] == 0x20);
    lemma_find_byte_at(s, 0x20, a.len() as int);
    assert(s.take(a.len() as int) =~= a);
    assert(s.skip(a.len() as int + 1) =~= b);
}

} // verus!
