//! What the pane windows send to the main window, in the machine's own
//! byte order: the pane id that opens a pane window's announcement, and
//! the terminal size (`struct winsize`: rows, columns, and pixel width and
//! height, 16 bits each).

use vstd::prelude::*;
use byteorder::ByteOrder;

verus! {

/// The number that the bytes `b` denote, least significant byte first.
pub open spec fn le_value(b: Seq<u8>) -> nat
    decreases b.len(),
{
    if b.len() == 0 {
        0
    } else {
        b[0] as nat + 256 * le_value(b.drop_first())
    }
}

/// The number that the bytes `b` denote, most significant byte first.
pub open spec fn be_value(b: Seq<u8>) -> nat {
    le_value(b.reverse())
}

/// The `k` low bytes of `n`, least significant first.
pub open spec fn le_bytes(n: nat, k: nat) -> Seq<u8>
    decreases k,
{
    if k == 0 {
        seq![]
    } else {
        seq![(n % 256) as u8] + le_bytes(n / 256, (k - 1) as nat)
    }
}

/// The `k` low bytes of `n`, most significant first.
pub open spec fn be_bytes(n: nat, k: nat) -> Seq<u8> {
    le_bytes(n, k).reverse()
}

/// Reads a `u64` in the machine's byte order with
/// `byteorder::NativeEndian::read_u64`.
///
/// Trusted: the value of the first eight bytes, read in one of the two byte
/// orders (which one depends on the machine, so it is left open).
#[verifier::external_body]
fn native_read_u64(buf: &[u8]) -> (r: u64)
    requires
        buf@.len() >= 8,
    ensures
        r == le_value(buf@.take(8)) || r == be_value(buf@.take(8)),
{
    byteorder::NativeEndian::read_u64(buf)
}

/// Writes a `u64` in the machine's byte order with
/// `byteorder::NativeEndian::write_u64`.
///
/// Trusted: the first eight bytes become `n` in one of the two byte orders
/// (which one depends on the machine, so it is left open); the rest is kept.
#[verifier::external_body]
fn native_write_u64(buf: &mut [u8], n: u64)
    requires
        old(buf)@.len() >= 8,
    ensures
        final(buf)@.len() == old(buf)@.len(),
        final(buf)@.take(8) == le_bytes(n as nat, 8) || final(buf)@.take(8) == be_bytes(n as nat, 8),
        final(buf)@.skip(8) == old(buf)@.skip(8),
{
    byteorder::NativeEndian::write_u64(buf, n)
}

/// The pane id at the start of a pane window's announcement (`None` when
/// the message is shorter than eight bytes).
pub fn read_pane_id(msg: &[u8]) -> (r: Option<u64>)
    ensures
        msg@.len() < 8 ==> r is None,
        msg@.len() >= 8 ==> (r matches Some(id) && (id == le_value(msg@.take(8)) || id == be_value(
            msg@.take(8),
        ))),
{
    if msg.len() < 8 {
        None
    } else {
        Some(native_read_u64(msg))
    }
}

/// The eight bytes with which a pane window announces the pane `paneid`.
pub fn pane_id_message(paneid: u64) -> (r: Vec<u8>)
    ensures
        r@ == le_bytes(paneid as nat, 8) || r@ == be_bytes(paneid as nat, 8),
{
    let mut buf: Vec<u8> = vec![0u8; 8];
    native_write_u64(buf.as_mut_slice(), paneid);
    assert(buf@.take(8) =~= buf@);
    buf
}

/// The value of the bytes `lo`, `hi`, least significant first.
pub open spec fn u16_le(lo: u8, hi: u8) -> u16 {
    (lo + 256 * hi) as u16
}

/// The terminal size in the first eight bytes of `b` (rows, columns, pixel
/// width, pixel height), each field least significant byte first when
/// `little`, most significant first otherwise.
pub open spec fn winsize_in(b: Seq<u8>, little: bool) -> WinSize {
    if little {
        WinSize {
            ws_row: u16_le(b[0], b[1]),
            ws_col: u16_le(b[2], b[3]),
            ws_xpixel: u16_le(b[4], b[5]),
            ws_ypixel: u16_le(b[6], b[7]),
        }
    } else {
        WinSize {
            ws_row: u16_le(b[1], b[0]),
            ws_col: u16_le(b[3], b[2]),
            ws_xpixel: u16_le(b[5], b[4]),
            ws_ypixel: u16_le(b[7], b[6]),
        }
    }
}

/// The two bytes of `v`, least significant first when `little`.
pub open spec fn u16_bytes(v: u16, little: bool) -> Seq<u8> {
    if little {
        le_bytes(v as nat, 2)
    } else {
        be_bytes(v as nat, 2)
    }
}

/// The eight bytes of `s` as a `struct winsize`, every field in the same
/// byte order.
pub open spec fn winsize_bytes(s: WinSize, little: bool) -> Seq<u8> {
    u16_bytes(s.ws_row, little) + u16_bytes(s.ws_col, little) + u16_bytes(s.ws_xpixel, little)
        + u16_bytes(s.ws_ypixel, little)
}

/// A terminal size, as `struct winsize` holds it.
#[derive(Debug, Clone, Copy, PartialEq, Eq, Structural)]
pub struct WinSize {
    pub ws_row: u16,
    pub ws_col: u16,
    pub ws_xpixel: u16,
    pub ws_ypixel: u16,
}

/// Reads a `struct winsize` from its eight bytes, each field with
/// `u16::from_ne_bytes`.
///
/// Trusted: every field is read in the machine's byte order, which is one
/// and the same for all four (little- or big-endian; which one is left open).
#[verifier::external_body]
fn winsize_from_ne(b: &[u8]) -> (r: WinSize)
    requires
        b@.len() >= 8,
    ensures
        r == winsize_in(b@, true) || r == winsize_in(b@, false),
{
    WinSize {
        ws_row: u16::from_ne_bytes([b[0], b[1]]),
        ws_col: u16::from_ne_bytes([b[2], b[3]]),
        ws_xpixel: u16::from_ne_bytes([b[4], b[5]]),
        ws_ypixel: u16::from_ne_bytes([b[6], b[7]]),
    }
}

/// Writes a `struct winsize` as eight bytes, each field with
/// `u16::to_ne_bytes`.
///
/// Trusted: every field is written in the machine's byte order, which is one
/// and the same for all four (little- or big-endian; which one is left open).
#[verifier::external_body]
fn winsize_to_ne(s: &WinSize) -> (r: Vec<u8>)
    ensures
        r@ == winsize_bytes(*s, true) || r@ == winsize_bytes(*s, false),
{
    let mut out = Vec::with_capacity(8);
    out.extend_from_slice(&s.ws_row.to_ne_bytes());
    out.extend_from_slice(&s.ws_col.to_ne_bytes());
    out.extend_from_slice(&s.ws_xpixel.to_ne_bytes());
    out.extend_from_slice(&s.ws_ypixel.to_ne_bytes());
    out
}

impl WinSize {
    /// The size in the first eight bytes of `b`, as the kernel lays out a
    /// `struct winsize`: rows, columns, pixel width, pixel height, all in the
    /// machine's byte order.
    pub fn from_ne_bytes(b: &[u8]) -> (r: WinSize)
        requires
            b@.len() >= 8,
        ensures
            r == winsize_in(b@, true) || r == winsize_in(b@, false),
    {
        winsize_from_ne(b)
    }

    /// The eight bytes of this size as a `struct winsize`, in the machine's
    /// byte order.
    pub fn to_ne_bytes(&self) -> (r: Vec<u8>)
        ensures
            r@.len() == 8,
            r@ == winsize_bytes(*self, true) || r@ == winsize_bytes(*self, false),
    {
        let r = winsize_to_ne(self);
        proof {
            lemma_winsize_bytes_len(*self, true);
            lemma_winsize_bytes_len(*self, false);
        }
        r
    }
}

proof fn lemma_u16_bytes(v: u16, little: bool)
    ensures
        u16_bytes(v, little).len() == 2,
        little ==> u16_bytes(v, little) == seq![(v % 256) as u8, (v / 256) as u8],
        !little ==> u16_bytes(v, little) == seq![(v / 256) as u8, (v % 256) as u8],
{
    let n = v as nat;
    assert(n / 256 < 256);
    assert((n / 256) % 256 == n / 256);
    assert(n / 256 / 256 == 0);
    reveal_with_fuel(le_bytes, 3);
    assert(le_bytes(n, 2) =~= seq![(n % 256) as u8, ((n / 256) % 256) as u8]);
    assert(le_bytes(n, 2).reverse() =~= seq![((n / 256) % 256) as u8, (n % 256) as u8]);
}

proof fn lemma_winsize_bytes_len(s: WinSize, little: bool)
    ensures
        winsize_bytes(s, little).len() == 8,
{
    lemma_u16_bytes(s.ws_row, little);
    lemma_u16_bytes(s.ws_col, little);
    lemma_u16_bytes(s.ws_xpixel, little);
    lemma_u16_bytes(s.ws_ypixel, little);
}

/// A size written in one byte order and read back in the same order is the
/// size itself.
pub proof fn lemma_winsize_round_trip(s: WinSize, little: bool)
    ensures
        winsize_bytes(s, little).len() == 8,
        winsize_in(winsize_bytes(s, little), little) == s,
{
    lemma_u16_bytes(s.ws_row, little);
    lemma_u16_bytes(s.ws_col, little);
    lemma_u16_bytes(s.ws_xpixel, little);
    lemma_u16_bytes(s.ws_ypixel, little);
    let b = winsize_bytes(s, little);
    let r = u16_bytes(s.ws_row, little);
    let c = u16_bytes(s.ws_col, little);
    let x = u16_bytes(s.ws_xpixel, little);
    let y = u16_bytes(s.ws_ypixel, little);
    assert(b[0] == r[0] && b[1] == r[1]);
    assert(b[2] == c[0] && b[3] == c[1]);
    assert(b[4] == x[0] && b[5] == x[1]);
    assert(b[6] == y[0] && b[7] == y[1]);
    assert forall|v: u16| #[trigger] u16_le((v % 256) as u8, (v / 256) as u8) == v by {
        assert(v as nat == (v % 256) as nat + 256 * (v / 256) as nat);
    }
}

} // verus!
