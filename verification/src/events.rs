//! The main window's decisions on its events: keys typed in the main
//! window, and the input and size changes of the pane windows.

use vstd::prelude::*;
use vstd::slice::{slice_subrange, slice_to_vec};
use crate::command::{kill_pane_command, refresh_client_command, resize_pane_command, send_keys_command, utf8};
use crate::decimal::decimal;
use crate::hex::hex_text;
use crate::wire::{winsize_in, WinSize};

verus! {

/// What becomes of the keys typed in the main window.
#[derive(Debug)]
pub enum KeyboardAction {
    /// Pass these bytes on to the shell.
    Forward(Vec<u8>),
    /// Ask tmux to detach (an escape key was seen in control mode).
    Detach,
    /// Drop them.
    Ignore,
}

/// The keys typed in the main window: `buf[..read]` was just read into the
/// buffer `buf`. While tmux control mode has not started they go to the
/// shell; in control mode an escape byte anywhere in the buffer detaches.
pub fn keyboard_action(passing_through: bool, buf: &[u8], read: usize) -> (r: KeyboardAction)
    requires
        read <= buf@.len(),
    ensures
        passing_through ==> (r matches KeyboardAction::Forward(v) && v@ == buf@.take(read as int)),
        !passing_through && buf@.contains(0x1b) ==> r is Detach,
        !passing_through && !buf@.contains(0x1b) ==> r is Ignore,
{
    if passing_through {
        return KeyboardAction::Forward(slice_to_vec(slice_subrange(buf, 0, read)));
    }
    let mut i: usize = 0;
    while i < buf.len()
        invariant
            i <= buf@.len(),
            !passing_through,
            forall|k: int| 0 <= k < i ==> buf@[k] != 0x1b,
        decreases buf@.len() - i,
    {
        if buf[i] == 0x1b {
            assert(buf@[i as int] == 0x1b);
            return KeyboardAction::Detach;
        }
        i = i + 1;
    }
    KeyboardAction::Ignore
}

/// What a pane window's input means for tmux: `read` bytes were read into
/// `buf`. None means the window closed, and its tmux pane is killed;
/// otherwise the keys are sent to the pane.
pub fn pane_input_command(paneid: usize, buf: &[u8], read: usize) -> (r: Vec<u8>)
    requires
        read <= buf@.len(),
    ensures
        read == 0 ==> r@ == utf8("kill-pane -t "@) + decimal(paneid as nat) + seq![0x0a],
        read > 0 ==> r@ == utf8("send-keys -t "@) + decimal(paneid as nat) + seq![0x20] + hex_text(
            buf@.take(read as int),
        ) + seq![0x0a],
{
    if read == 0 {
        kill_pane_command(paneid)
    } else {
        send_keys_command(paneid, slice_subrange(buf, 0, read))
    }
}

/// What a pane window's size change means for tmux.
#[derive(Debug)]
pub enum SizeEvent {
    /// The window will send no more sizes.
    Closed,
    /// Set the client size, then the pane size (the two commands).
    Resize(Vec<u8>, Vec<u8>),
}

/// The two commands for a pane whose window now has size `size`: set the
/// client size, then the pane size.
pub open spec fn size_commands(paneid: usize, size: WinSize) -> (Seq<u8>, Seq<u8>) {
    (
        utf8("refresh-client -C "@) + decimal(size.ws_col as nat) + seq![0x2c] + decimal(
            size.ws_row as nat,
        ) + seq![0x0a],
        utf8("resize-pane -x "@) + decimal(size.ws_col as nat) + utf8(" -y "@) + decimal(
            size.ws_row as nat,
        ) + utf8(" -t %"@) + decimal(paneid as nat) + seq![0x0a],
    )
}

/// A pane window sent its size: `read` bytes were read into `buf`, either
/// none (it closed) or a whole `struct winsize` in the machine's byte order.
pub fn pane_size_event(paneid: usize, buf: &[u8], read: usize) -> (r: SizeEvent)
    requires
        buf@.len() >= 8,
        read == 0 || read == 8,
    ensures
        read == 0 ==> r is Closed,
        read == 8 ==> (r matches SizeEvent::Resize(refresh, resize) && (
            (refresh@, resize@) == size_commands(paneid, winsize_in(buf@, true))
            || (refresh@, resize@) == size_commands(paneid, winsize_in(buf@, false)))),
{
    if read == 0 {
        return SizeEvent::Closed;
    }
    let size = WinSize::from_ne_bytes(buf);
    let refresh = refresh_client_command(size.ws_col, size.ws_row);
    let resize = resize_pane_command(size.ws_col, size.ws_row, paneid);
    SizeEvent::Resize(refresh, resize)
}

} // verus!
