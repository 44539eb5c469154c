//! The logic of the i3/tmux integration: the tmux layout grammar, the tmux
//! control-mode input state machine, the commands sent to tmux and i3, the
//! main window's event decisions, and the small encodings that the main
//! window and the pane windows exchange.

pub mod command;
pub mod control;
pub mod decimal;
pub mod events;
pub mod hex;
pub mod layout;
pub mod pane;
pub mod text;
pub mod token;
pub mod wire;
