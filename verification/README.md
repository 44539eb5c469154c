# i3 tmux integration

Runs the user's shell in a pseudo-terminal; when tmux starts in control mode
there, every tmux pane gets a terminal window of its own through i3, and
input, output and sizes are relayed between the windows and tmux.

Layout:

- `src/`: the logic, verified with Verus.
  - `layout`: the tmux layout format (`<w>x<h>,<x>,<y>` then `,<pane>`,
    `{...}` or `[...]`) and its parser, with the law that a layout written in
    this format parses back to itself.
  - `control`: the control-mode state machine: which bytes are passed
    through, when control mode starts and ends, and what each notification
    (`%output`, `%layout-change`, `%exit`, ...) asks for, as a list of
    effects; with laws on the order of effects.
  - `command`, `hex`, `decimal`: the commands written to tmux and i3.
  - `events`, `token`: the main window's decisions on its poll events.
  - `pane`: output kept for a pane until its window connects.
  - `wire`: the pane id and terminal size sent between windows.
  - `text`: byte-level text helpers (splitting, trimming, UTF-8).
- `tests/`: tests of the library.
- `app/`: the program: terminals, sockets, signals, i3 and the event loop.
  Started as `tmux-integration-window`, it runs the pane window instead.
