//! What the main window says to tmux and to i3: the control-mode commands
//! written to tmux's terminal, the command that opens a pane window, and
//! what becomes of the keys typed in the main window.

use vstd::prelude::*;
use vstd::string::{StringExecFns, StringSliceAdditionalSpecFns};
use vstd::slice::slice_to_vec;
use vstd::utf8::encode_utf8;
use crate::decimal::{decimal, push_decimal};
use crate::hex::{hex_text, to_hex};
use crate::text::{ascii_chars, lemma_ascii_utf8, str_from_utf8};

verus! {

/// The UTF-8 bytes of the text `s`.
pub open spec fn utf8(s: Seq<char>) -> Seq<u8> {
    encode_utf8(s)
}

fn push_str(out: &mut Vec<u8>, s: &str)
    ensures
        final(out)@ == old(out)@ + utf8(s@),
{
    let mut v = slice_to_vec(s.as_bytes());
    out.append(&mut v);
}

/// `kill-pane -t <pane>` and a newline: close the tmux pane whose window
/// stopped giving input.
pub fn kill_pane_command(paneid: usize) -> (r: Vec<u8>)
    ensures
        r@ == utf8("kill-pane -t "@) + decimal(paneid as nat) + seq![0x0a],
{
    let mut out: Vec<u8> = Vec::new();
    push_str(&mut out, "kill-pane -t ");
    push_decimal(&mut out, paneid as u64);
    out.push(0x0a);
    out
}

/// `send-keys -t <pane> <keys>` and a newline: the keys typed in a pane's
/// window, written as by [`to_hex`].
pub fn send_keys_command(paneid: usize, keys: &[u8]) -> (r: Vec<u8>)
    ensures
        r@ == utf8("send-keys -t "@) + decimal(paneid as nat) + seq![0x20] + hex_text(keys@) + seq![
            0x0a,
        ],
{
    let mut out: Vec<u8> = Vec::new();
    push_str(&mut out, "send-keys -t ");
    push_decimal(&mut out, paneid as u64);
    out.push(0x20);
    let mut hex = to_hex(keys);
    out.append(&mut hex);
    out.push(0x0a);
    out
}

/// `refresh-client -C <columns>,<rows>` and a newline: the client size.
pub fn refresh_client_command(cols: u16, rows: u16) -> (r: Vec<u8>)
    ensures
        r@ == utf8("refresh-client -C "@) + decimal(cols as nat) + seq![0x2c] + decimal(rows as nat)
            + seq![0x0a],
{
    let mut out: Vec<u8> = Vec::new();
    push_str(&mut out, "refresh-client -C ");
    push_decimal(&mut out, cols as u64);
    out.push(0x2c);
    push_decimal(&mut out, rows as u64);
    out.push(0x0a);
    out
}

/// `resize-pane -x <columns> -y <rows> -t %<pane>` and a newline.
pub fn resize_pane_command(cols: u16, rows: u16, paneid: usize) -> (r: Vec<u8>)
    ensures
        r@ == utf8("resize-pane -x "@) + decimal(cols as nat) + utf8(" -y "@) + decimal(rows as nat)
            + utf8(" -t %"@) + decimal(paneid as nat) + seq![0x0a],
{
    let mut out: Vec<u8> = Vec::new();
    push_str(&mut out, "resize-pane -x ");
    push_decimal(&mut out, cols as u64);
    push_str(&mut out, " -y ");
    push_decimal(&mut out, rows as u64);
    push_str(&mut out, " -t %");
    push_decimal(&mut out, paneid as u64);
    out.push(0x0a);
    out
}

/// `detach` and a newline.
pub fn detach_command() -> (r: Vec<u8>)
    ensures
        r@ == utf8("detach\n"@),
{
    let mut out: Vec<u8> = Vec::new();
    push_str(&mut out, "detach\n");
    out
}

/// The decimal spelling of `n` as text.
pub fn decimal_string(n: u64) -> (r: String)
    ensures
        r@ == ascii_chars(decimal(n as nat)),
{
    let mut digits: Vec<u8> = Vec::new();
    push_decimal(&mut digits, n);
    assert(digits@ =~= decimal(n as nat));
    proof {
        lemma_decimal_ascii(n as nat);
        lemma_ascii_utf8(digits@);
    }
    match str_from_utf8(digits.as_slice()) {
        Some(s) => {
            proof {
                vstd::utf8::encode_utf8_decode_utf8(s@);
            }
            String::from_str(s)
        },
        // Not reached: digits are ASCII.
        None => String::new(),
    }
}

proof fn lemma_decimal_ascii(n: nat)
    ensures
        forall|i: int| 0 <= i < decimal(n).len() ==> #[trigger] decimal(n)[i] < 0x80,
    decreases n,
{
    if n >= 10 {
        lemma_decimal_ascii(n / 10);
        assert forall|i: int| 0 <= i < decimal(n).len() implies #[trigger] decimal(n)[i] < 0x80 by {
            if i < decimal(n / 10).len() {
                assert(decimal(n)[i] == decimal(n / 10)[i]);
            }
        }
    }
}

/// The i3 command that opens the window of pane `id`: a terminal on the
/// `tmp` workspace running `exe` (the pane-window program) with the socket
/// path and the pane id.
pub fn pane_window_command(exe: &str, path: &str, id: u64) -> (r: String)
    ensures
        r@ == "workspace tmp; exec RUST_BACKTRACE=1 i3-sensible-terminal --hold -e "@ + exe@ + " "@
            + path@ + " "@ + ascii_chars(decimal(id as nat)),
{
    let mut r = String::from_str("workspace tmp; exec RUST_BACKTRACE=1 i3-sensible-terminal --hold -e ");
    r.append(exe);
    r.append(" ");
    r.append(path);
    r.append(" ");
    let d = decimal_string(id);
    r.append(d.as_str());
    r
}

} // verus!
