//! The event-loop tokens of the main window. Four tokens are fixed (the
//! shell's terminal, the user's terminal, the resize signal, and the socket
//! on which pane windows announce themselves); from `FIRST_PANEID` on, each
//! pane has two: one for what its user types and one for its size.

use vstd::prelude::*;

verus! {

/// Output of the shell running in the main window.
pub const MAIN_STDIN: usize = 0;
/// Keys typed in the main window.
pub const MAIN_STDOUT: usize = 1;
/// The main window's resize signal.
pub const MAIN_SIGFD: usize = 2;
/// The socket on which pane windows send their file descriptors.
pub const SUBWINDOW_SOCKET: usize = 3;
/// The first token that belongs to a pane.
pub const FIRST_PANEID: usize = 4;
/// How many tokens each pane has.
pub const FD_PER_PANEID: usize = 2;
/// Offset of a pane's input token among its tokens.
pub const SUBWINDOW_INPUT_PANEID_MOD: usize = 0;
/// Offset of a pane's size token among its tokens.
pub const SUBWINDOW_SIZE_PANEID_MOD: usize = 1;

/// The pane that the pane token `t` belongs to.
pub fn token_to_pane(t: usize) -> (r: usize)
    requires
        t >= FIRST_PANEID,
    ensures
        r == (t - FIRST_PANEID) / FD_PER_PANEID as int,
{
    (t - FIRST_PANEID) / FD_PER_PANEID
}

/// `t` is the token of what a pane's user types.
pub fn token_is_subwindow_input(t: usize) -> (r: bool)
    ensures
        r == (t >= FIRST_PANEID && t % FD_PER_PANEID == SUBWINDOW_INPUT_PANEID_MOD),
{
    t >= FIRST_PANEID && t % FD_PER_PANEID == SUBWINDOW_INPUT_PANEID_MOD
}

/// `t` is the token of a pane's size changes.
pub fn token_is_subwindow_size(t: usize) -> (r: bool)
    ensures
        r == (t >= FIRST_PANEID && t % FD_PER_PANEID == SUBWINDOW_SIZE_PANEID_MOD),
{
    t >= FIRST_PANEID && t % FD_PER_PANEID == SUBWINDOW_SIZE_PANEID_MOD
}

/// The token with which the input of pane `paneid` is registered.
pub open spec fn spec_input_token(paneid: u64) -> int {
    paneid * FD_PER_PANEID + SUBWINDOW_INPUT_PANEID_MOD + FIRST_PANEID
}

/// The token with which the size changes of pane `paneid` are registered.
pub open spec fn spec_size_token(paneid: u64) -> int {
    paneid * FD_PER_PANEID + SUBWINDOW_SIZE_PANEID_MOD + FIRST_PANEID
}

/// The tokens of pane `paneid`: its input, then its size changes.
pub fn pane_tokens(paneid: u64) -> (r: (usize, usize))
    requires
        spec_size_token(paneid) <= usize::MAX,
    ensures
        r.0 == spec_input_token(paneid),
        r.1 == spec_size_token(paneid),
{
    let p = paneid as usize;
    (p * FD_PER_PANEID + SUBWINDOW_INPUT_PANEID_MOD + FIRST_PANEID, p * FD_PER_PANEID
        + SUBWINDOW_SIZE_PANEID_MOD + FIRST_PANEID)
}

/// What an event's token stands for.
#[derive(Debug, Clone, Copy, PartialEq, Eq, Structural)]
pub enum TokenKind {
    MainStdin,
    MainStdout,
    MainSigfd,
    SubwindowSocket,
    /// Input from the pane with this id.
    SubwindowInput(usize),
    /// A size change of the pane with this id.
    SubwindowSize(usize),
}

/// What the token `t` stands for. Every token has a meaning.
pub open spec fn spec_classify(t: int) -> TokenKind {
    if t == MAIN_STDIN {
        TokenKind::MainStdin
    } else if t == MAIN_STDOUT {
        TokenKind::MainStdout
    } else if t == MAIN_SIGFD {
        TokenKind::MainSigfd
    } else if t == SUBWINDOW_SOCKET {
        TokenKind::SubwindowSocket
    } else if t % FD_PER_PANEID as int == SUBWINDOW_INPUT_PANEID_MOD {
        TokenKind::SubwindowInput(((t - FIRST_PANEID) / FD_PER_PANEID as int) as usize)
    } else {
        TokenKind::SubwindowSize(((t - FIRST_PANEID) / FD_PER_PANEID as int) as usize)
    }
}

/// What the token `t` stands for.
pub fn classify_token(t: usize) -> (r: TokenKind)
    ensures
        r == spec_classify(t as int),
{
    if t == MAIN_STDIN {
        TokenKind::MainStdin
    } else if t == MAIN_STDOUT {
        TokenKind::MainStdout
    } else if t == MAIN_SIGFD {
        TokenKind::MainSigfd
    } else if t == SUBWINDOW_SOCKET {
        TokenKind::SubwindowSocket
    } else if token_is_subwindow_input(t) {
        TokenKind::SubwindowInput(token_to_pane(t))
    } else {
        TokenKind::SubwindowSize(token_to_pane(t))
    }
}

/// The tokens of a pane lead back to that pane, each as the kind it was
/// registered for, and never collide with the fixed tokens.
pub proof fn lemma_pane_tokens_round_trip(paneid: u64)
    requires
        spec_size_token(paneid) <= usize::MAX,
    ensures
        spec_classify(spec_input_token(paneid)) == TokenKind::SubwindowInput(paneid as usize),
        spec_classify(spec_size_token(paneid)) == TokenKind::SubwindowSize(paneid as usize),
        spec_input_token(paneid) >= FIRST_PANEID,
        spec_size_token(paneid) >= FIRST_PANEID,
{
}

/// Distinct panes have distinct tokens.
pub proof fn lemma_pane_tokens_distinct(p: u64, q: u64)
    requires
        p != q,
    ensures
        spec_input_token(p) != spec_input_token(q),
        spec_size_token(p) != spec_size_token(q),
        spec_input_token(p) != spec_size_token(q),
{
}

} // verus!
