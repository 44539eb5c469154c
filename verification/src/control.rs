//! The tmux control-mode input state machine.
//!
//! The main window watches what the shell prints. Until tmux announces
//! control mode (with the DEC sequence `ESC P 1 0 0 0 p`), output is passed
//! through. In control mode, each line is a tmux notification such as
//! `%output %<pane> <escaped text>` or `%layout-change @<window> <layout>`.
//! [`InputMode::handle_input`] decides what each chunk of output means; it returns the
//! next mode and the effects to carry out, in order, which the caller
//! performs (writing to the terminal, driving i3, feeding pane windows).

use vstd::prelude::*;
use vstd::string::StringSliceAdditionalSpecFns;
use vstd::utf8::{decode_utf8, valid_utf8};
use crate::decimal::{parse_u64, spec_parse_u64};
use crate::layout::{layout_at, Layout, LayoutError, Parsed, SpecLayout, SpecParsed, spec_layout};
use crate::text::{bytes_eq, find_byte, find_byte_from, lemma_valid_piece, split_on, slices_at, str_from_utf8, trim, trim_bounds};
use vstd::slice::{slice_subrange, slice_to_vec};
use vstd::string::StringExecFns;

verus! {

/// Why tmux's input could not be handled; the program stops (panics) at
/// this point, after the effects that precede it.
#[derive(Debug, Clone, Copy, PartialEq, Eq, Structural)]
pub enum Failure {
    /// A control-mode line is not valid UTF-8.
    InvalidUtf8,
    /// A notification lacks an argument that it needs.
    MissingArgument,
    /// An argument is too short to drop its prefix, or the prefix would end
    /// inside a character.
    BadSlice,
    /// The pane id of `%output` is not a number.
    BadPaneId,
    /// The text of `%output` holds an invalid escape.
    BadEscape,
    /// The layout of `%layout-change` does not parse.
    BadLayout(LayoutError),
    /// The layout of `%layout-change` ends before it is complete.
    IncompleteLayout,
    /// `%exit` arrived on a last line with no newline after it.
    ExitPastEnd,
}

/// Where the main window is in its conversation with tmux.
#[derive(Debug)]
pub enum InputMode {
    /// Passing the shell's output through, watching for tmux control mode.
    LookingForTmuxDec,
    /// In control mode; the i3 workspace that the panes go to.
    TmuxWaiting(String),
    /// Inside a tmux command reply block (input is ignored).
    TmuxCommandBlock(String),
}

/// The model of an [`InputMode`].
pub enum SpecInputMode {
    LookingForTmuxDec,
    TmuxWaiting(Seq<char>),
    TmuxCommandBlock(Seq<char>),
}

impl View for InputMode {
    type V = SpecInputMode;

    open spec fn view(&self) -> SpecInputMode {
        match self {
            InputMode::LookingForTmuxDec => SpecInputMode::LookingForTmuxDec,
            InputMode::TmuxWaiting(w) => SpecInputMode::TmuxWaiting(w@),
            InputMode::TmuxCommandBlock(w) => SpecInputMode::TmuxCommandBlock(w@),
        }
    }
}

/// Something the caller must do, in the order given.
#[derive(Debug)]
pub enum Effect {
    /// Write these bytes to standard output.
    WriteStdout(Vec<u8>),
    /// Flush standard output.
    FlushStdout,
    /// Print the banner that announces tmux mode.
    TmuxBanner,
    /// Send this command to i3.
    I3Command(String),
    /// Forget every pane.
    ClearPanes,
    /// tmux announced a new layout for a window.
    LayoutChange(Layout),
    /// Make sure a pane with this id exists (opening its window if not).
    OpenPane(u64),
    /// Write this text to the pane with this id.
    WritePane(u64, String),
    /// Stop: the input cannot be handled.
    Fail(Failure),
}

/// The model of an [`Effect`].
pub enum SpecEffect {
    WriteStdout(Seq<u8>),
    FlushStdout,
    TmuxBanner,
    I3Command(Seq<char>),
    ClearPanes,
    LayoutChange(SpecLayout),
    OpenPane(u64),
    WritePane(u64, Seq<char>),
    Fail(Failure),
}

impl View for Effect {
    type V = SpecEffect;

    open spec fn view(&self) -> SpecEffect {
        match self {
            Effect::WriteStdout(b) => SpecEffect::WriteStdout(b@),
            Effect::FlushStdout => SpecEffect::FlushStdout,
            Effect::TmuxBanner => SpecEffect::TmuxBanner,
            Effect::I3Command(c) => SpecEffect::I3Command(c@),
            Effect::ClearPanes => SpecEffect::ClearPanes,
            Effect::LayoutChange(l) => SpecEffect::LayoutChange(l@),
            Effect::OpenPane(id) => SpecEffect::OpenPane(*id),
            Effect::WritePane(id, t) => SpecEffect::WritePane(*id, t@),
            Effect::Fail(f) => SpecEffect::Fail(*f),
        }
    }
}

/// The models of the effects `v`, in order.
pub open spec fn effects_view(v: Seq<Effect>) -> Seq<SpecEffect> {
    v.map_values(|e: Effect| e@)
}

/* What the input means. */

/// The DEC sequence with which tmux enters control mode: `ESC P 1 0 0 0 p`.
pub open spec fn tmux_dec() -> Seq<u8> {
    seq![0x1b, 0x50, 0x31, 0x30, 0x30, 0x30, 0x70]
}

/// `p` occurs in `t` at `i`.
pub open spec fn occurs_at(t: Seq<u8>, p: Seq<u8>, i: int) -> bool {
    0 <= i && i + p.len() <= t.len() && t.subrange(i, i + p.len()) == p
}

/// The first index at or after `i` where `p` occurs in `t`.
pub open spec fn first_occurrence_from(t: Seq<u8>, p: Seq<u8>, i: int) -> Option<int>
    decreases t.len() + 1 - i,
{
    if i < 0 || i + p.len() > t.len() {
        None
    } else if occurs_at(t, p, i) {
        Some(i)
    } else {
        first_occurrence_from(t, p, i + 1)
    }
}

/// The first index where `p` occurs in `t`.
pub open spec fn first_occurrence(t: Seq<u8>, p: Seq<u8>) -> Option<int> {
    first_occurrence_from(t, p, 0)
}

pub proof fn lemma_first_occurrence_from(t: Seq<u8>, p: Seq<u8>, i: int)
    ensures
        first_occurrence_from(t, p, i) matches Some(x) ==> i <= x && occurs_at(t, p, x),
    decreases t.len() + 1 - i,
{
    if !(i < 0 || i + p.len() > t.len()) && !occurs_at(t, p, i) {
        lemma_first_occurrence_from(t, p, i + 1);
    }
}

/// The text that `unescape::unescape` makes of `s`.
pub uninterp spec fn unescaped(s: Seq<char>) -> Option<Seq<char>>;

/// Finds `pattern` in `text` with `twoway::find_bytes`.
///
/// Trusted: `find_bytes` returns the index of the first occurrence of
/// `pattern` in `text`, or `None` when it does not occur.
#[verifier::external_body]
fn find_bytes(text: &[u8], pattern: &[u8]) -> (r: Option<usize>)
    ensures
        r is None <==> first_occurrence(text@, pattern@) is None,
        r matches Some(i) ==> first_occurrence(text@, pattern@) == Some(i as int),
{
    twoway::find_bytes(text, pattern)
}

/// The escape character `\\`.
pub open spec fn backslash() -> char {
    '\u{5c}'
}

/// Resolves backslash escapes with `unescape::unescape`.
///
/// Trusted: the result is `unescaped` of the input, a function of the input
/// alone; and text without a backslash comes back unchanged (the crate's
/// loop copies every other character as it is). Nothing more of the escape
/// rules is stated.
#[verifier::external_body]
fn unescape_str(s: &str) -> (r: Option<String>)
    ensures
        r is None <==> unescaped(s@) is None,
        r matches Some(u) ==> unescaped(s@) == Some(u@),
        !s@.contains(backslash()) ==> r is Some,
        r matches Some(u) ==> (s@.contains(backslash()) || u@ == s@),
{
    unescape::unescape(s)
}

/// The line without one trailing carriage return.
pub open spec fn strip_cr(line: Seq<u8>) -> Seq<u8> {
    if line.len() > 0 && line.last() == 0x0d {
        line.drop_last()
    } else {
        line
    }
}

/// `%exit`
pub open spec fn exit_cmd() -> Seq<u8> {
    seq![0x25, 0x65, 0x78, 0x69, 0x74]
}

/// `%layout-change`
pub open spec fn layout_change_cmd() -> Seq<u8> {
    seq![0x25, 0x6c, 0x61, 0x79, 0x6f, 0x75, 0x74, 0x2d, 0x63, 0x68, 0x61, 0x6e, 0x67, 0x65]
}

/// `%output`
pub open spec fn output_cmd() -> Seq<u8> {
    seq![0x25, 0x6f, 0x75, 0x74, 0x70, 0x75, 0x74]
}

/// `%window-add`
pub open spec fn window_add_cmd() -> Seq<u8> {
    seq![0x25, 0x77, 0x69, 0x6e, 0x64, 0x6f, 0x77, 0x2d, 0x61, 0x64, 0x64]
}

/// What one control-mode line means.
pub enum LineOutcome {
    /// `%exit`: control mode ends.
    Exit,
    /// These effects, then the next line.
    Continue(Seq<SpecEffect>),
    /// These effects, the last of which is a failure.
    Stop(Seq<SpecEffect>),
}

/// The texts `fs` unescaped, or `None` when one of them cannot be.
pub open spec fn unescape_all(fs: Seq<Seq<u8>>) -> Option<Seq<Seq<char>>>
    decreases fs.len(),
{
    if fs.len() == 0 {
        Some(seq![])
    } else {
        match unescaped(decode_utf8(fs[0])) {
            Some(u) => match unescape_all(fs.drop_first()) {
                Some(r) => Some(seq![u] + r),
                None => None,
            },
            None => None,
        }
    }
}

/// The texts `parts` joined with single spaces.
pub open spec fn join_spaces(parts: Seq<Seq<char>>) -> Seq<char>
    decreases parts.len(),
{
    if parts.len() == 0 {
        seq![]
    } else if parts.len() == 1 {
        parts[0]
    } else {
        join_spaces(parts.drop_last()) + seq![' '] + parts.last()
    }
}

/// `%layout-change @<window> <prefix><layout>`: the layout after the five
/// bytes of its checksum prefix.
pub open spec fn spec_layout_change(args: Seq<Seq<u8>>) -> LineOutcome {
    if args.len() == 0 {
        LineOutcome::Stop(seq![SpecEffect::Fail(Failure::MissingArgument)])
    } else if !slices_at(args[0], 1) {
        LineOutcome::Stop(seq![SpecEffect::Fail(Failure::BadSlice)])
    } else if args.len() < 2 {
        LineOutcome::Stop(seq![SpecEffect::Fail(Failure::MissingArgument)])
    } else if !slices_at(args[1], 5) {
        LineOutcome::Stop(seq![SpecEffect::Fail(Failure::BadSlice)])
    } else {
        match spec_layout(args[1].skip(5), 0) {
            SpecParsed::Done(_, l) => LineOutcome::Continue(seq![SpecEffect::LayoutChange(l)]),
            SpecParsed::Error(e) => LineOutcome::Stop(seq![SpecEffect::Fail(Failure::BadLayout(e))]),
            SpecParsed::Incomplete => LineOutcome::Stop(seq![SpecEffect::Fail(Failure::IncompleteLayout)]),
        }
    }
}

/// `%output %<pane> <text>...`: the pane, then its text (the arguments
/// unescaped and joined with spaces).
pub open spec fn spec_output(args: Seq<Seq<u8>>) -> LineOutcome {
    if args.len() == 0 {
        LineOutcome::Stop(seq![SpecEffect::Fail(Failure::MissingArgument)])
    } else if !slices_at(args[0], 1) {
        LineOutcome::Stop(seq![SpecEffect::Fail(Failure::BadSlice)])
    } else {
        match spec_parse_u64(args[0].skip(1)) {
            None => LineOutcome::Stop(seq![SpecEffect::Fail(Failure::BadPaneId)]),
            Some(id) => {
                if args.len() < 2 {
                    LineOutcome::Stop(seq![SpecEffect::OpenPane(id), SpecEffect::Fail(Failure::MissingArgument)])
                } else {
                    match unescape_all(args.skip(1)) {
                        None => LineOutcome::Stop(
                            seq![SpecEffect::OpenPane(id), SpecEffect::Fail(Failure::BadEscape)],
                        ),
                        Some(parts) => LineOutcome::Continue(
                            seq![SpecEffect::OpenPane(id), SpecEffect::WritePane(id, join_spaces(parts))],
                        ),
                    }
                }
            },
        }
    }
}

/// One control-mode line (without its newline and carriage return): the
/// command is its first space-separated word, trimmed. `%exit`,
/// `%layout-change`, `%output` and `%window-add` are acted on; other
/// notifications are ignored.
pub open spec fn spec_line(line: Seq<u8>) -> LineOutcome {
    if !valid_utf8(line) {
        LineOutcome::Stop(seq![SpecEffect::Fail(Failure::InvalidUtf8)])
    } else {
        let fields = split_on(line, 0x20);
        let cmd = trim(fields[0]);
        let args = fields.drop_first();
        if cmd == exit_cmd() {
            LineOutcome::Exit
        } else if cmd == layout_change_cmd() {
            spec_layout_change(args)
        } else if cmd == output_cmd() {
            spec_output(args)
        } else if cmd == window_add_cmd() && args.len() == 0 {
            LineOutcome::Stop(seq![SpecEffect::Fail(Failure::MissingArgument)])
        } else {
            LineOutcome::Continue(seq![])
        }
    }
}

/// What a chunk of the shell's output does in `mode`: the next mode and the
/// effects, in order.
pub open spec fn spec_handle(mode: SpecInputMode, bytes: Seq<u8>) -> (SpecInputMode, Seq<SpecEffect>)
    decreases bytes.len(), 1int,
{
    match mode {
        SpecInputMode::LookingForTmuxDec => match first_occurrence(bytes, tmux_dec()) {
            Some(x) => {
                proof {
                    lemma_first_occurrence_from(bytes, tmux_dec(), 0);
                }
                let (m, e) = spec_handle(
                    SpecInputMode::TmuxWaiting("tmux"@),
                    bytes.skip(x + 7),
                );
                (
                    m,
                    seq![
                        SpecEffect::WriteStdout(bytes.take(x)),
                        SpecEffect::TmuxBanner,
                        SpecEffect::I3Command("workspace tmux"@),
                    ] + e,
                )
            },
            None => (mode, seq![SpecEffect::WriteStdout(bytes), SpecEffect::FlushStdout]),
        },
        SpecInputMode::TmuxWaiting(ws) => spec_waiting(ws, bytes),
        SpecInputMode::TmuxCommandBlock(_) => (mode, seq![]),
    }
}

/// The control-mode lines of `bytes`, one at a time, in workspace `ws`.
pub open spec fn spec_waiting(ws: Seq<char>, bytes: Seq<u8>) -> (SpecInputMode, Seq<SpecEffect>)
    decreases bytes.len(), 0int,
{
    let n = find_byte(bytes, 0x0a);
    proof {
        crate::text::lemma_find_byte(bytes, 0x0a);
    }
    match spec_line(strip_cr(bytes.take(n))) {
        LineOutcome::Exit => {
            if n < bytes.len() {
                let (m, e) = spec_handle(SpecInputMode::LookingForTmuxDec, bytes.skip(n + 1));
                (m, seq![SpecEffect::ClearPanes] + e)
            } else {
                (
                    SpecInputMode::TmuxWaiting(ws),
                    seq![SpecEffect::ClearPanes, SpecEffect::Fail(Failure::ExitPastEnd)],
                )
            }
        },
        LineOutcome::Continue(e) => {
            if n < bytes.len() {
                let (m, e2) = spec_waiting(ws, bytes.skip(n + 1));
                (m, e + e2)
            } else {
                (SpecInputMode::TmuxWaiting(ws), e)
            }
        },
        LineOutcome::Stop(e) => (SpecInputMode::TmuxWaiting(ws), e),
    }
}

/* Carrying it out. */

/// The pieces of `line` that the bounds `r` delimit.
pub open spec fn pieces(line: Seq<u8>, r: Seq<(usize, usize)>) -> Seq<Seq<u8>> {
    Seq::new(r.len(), |k: int| line.subrange(r[k].0 as int, r[k].1 as int))
}

/// The bounds of the space-separated words of `line`.
fn word_bounds(line: &[u8]) -> (r: Vec<(usize, usize)>)
    ensures
        pieces(line@, r@) == split_on(line@, 0x20),
        r@.len() >= 1,
        forall|k: int|
            0 <= k < r@.len() ==> {
                &&& #[trigger] r@[k].0 <= r@[k].1 <= line@.len()
                &&& (r@[k].0 == 0 || line@[r@[k].0 - 1] == 0x20)
                &&& (r@[k].1 == line@.len() || line@[r@[k].1 as int] == 0x20)
            },
{
    let mut r: Vec<(usize, usize)> = Vec::new();
    let mut pos: usize = 0;
    assert(line@.skip(0) =~= line@);
    loop
        invariant
            pos <= line@.len(),
            pos == 0 || line@[pos - 1] == 0x20,
            split_on(line@, 0x20) == pieces(line@, r@) + split_on(line@.skip(pos as int), 0x20),
            forall|k: int|
                0 <= k < r@.len() ==> {
                    &&& #[trigger] r@[k].0 <= r@[k].1 <= line@.len()
                    &&& (r@[k].0 == 0 || line@[r@[k].0 - 1] == 0x20)
                    &&& (r@[k].1 == line@.len() || line@[r@[k].1 as int] == 0x20)
                },
        decreases line@.len() - pos,
    {
        let n = find_byte_from(line, pos, 0x20);
        let ghost t = line@.skip(pos as int);
        assert(t =~= line@.subrange(pos as int, line@.len() as int));
        proof {
            crate::text::lemma_find_byte(t, 0x20);
        }
        let ghost old_r = r@;
        if n < line.len() {
            assert(line@[n as int] == t[n - pos]);
            r.push((pos, n));
            assert(r@[r@.len() - 1] == (pos, n));
            assert(line@[n as int] == 0x20);
            assert(t.take(n - pos) =~= line@.subrange(pos as int, n as int));
            assert(t.skip(n - pos + 1) =~= line@.skip(n + 1));
            assert(pieces(line@, r@) =~= pieces(line@, old_r).push(line@.subrange(pos as int, n as int)));
            assert(split_on(line@, 0x20) =~= pieces(line@, r@) + split_on(line@.skip(n + 1), 0x20));
            pos = n + 1;
        } else {
            r.push((pos, line.len()));
            assert(pieces(line@, r@) =~= pieces(line@, old_r).push(t));
            assert(split_on(line@, 0x20) =~= pieces(line@, r@));
            return r;
        }
    }
}

/// `&s[i..]` would not panic (`i >= 1`).
fn slices_at_exec(s: &[u8], i: usize) -> (r: bool)
    ensures
        r == slices_at(s@, i as int),
{
    i == s.len() || (i < s.len() && !(0x80 <= s[i] && s[i] <= 0xbf))
}

/// The model of a [`LineResult`].
pub open spec fn line_result_view(r: LineResult) -> LineOutcome {
    match r {
        LineResult::Exit => LineOutcome::Exit,
        LineResult::Continue(e) => LineOutcome::Continue(effects_view(e@)),
        LineResult::Stop(e) => LineOutcome::Stop(effects_view(e@)),
    }
}

/// What one control-mode line means (see [`LineOutcome`]).
pub enum LineResult {
    Exit,
    Continue(Vec<Effect>),
    Stop(Vec<Effect>),
}

fn stop(f: Failure) -> (r: LineResult)
    ensures
        line_result_view(r) == LineOutcome::Stop(seq![SpecEffect::Fail(f)]),
{
    let v = vec![Effect::Fail(f)];
    assert(effects_view(v@) =~= seq![SpecEffect::Fail(f)]);
    LineResult::Stop(v)
}

/// The strings `parts` joined with single spaces.
pub fn join_with_spaces(parts: &Vec<String>) -> (r: String)
    ensures
        r@ == join_spaces(parts@.map_values(|p: String| p@)),
{
    let ghost views = parts@.map_values(|p: String| p@);
    if parts.len() == 0 {
        return String::new();
    }
    let mut r = parts[0].clone();
    assert(views.take(1).drop_last() =~= Seq::<Seq<char>>::empty());
    assert(join_spaces(views.take(1)) == views[0]);
    let mut i: usize = 1;
    while i < parts.len()
        invariant
            1 <= i <= parts@.len(),
            views == parts@.map_values(|p: String| p@),
            r@ == join_spaces(views.take(i as int)),
        decreases parts@.len() - i,
    {
        r.append(" ");
        r.append(parts[i].as_str());
        proof {
            reveal_strlit(" ");
            assert(views.take(i + 1).drop_last() =~= views.take(i as int));
        }
        i = i + 1;
    }
    assert(views.take(parts@.len() as int) =~= views);
    r
}

proof fn lemma_unescape_all_push(fs: Seq<Seq<u8>>, f: Seq<u8>)
    ensures
        unescape_all(fs.push(f)) == match (unescape_all(fs), unescaped(decode_utf8(f))) {
            (Some(p), Some(u)) => Some(p.push(u)),
            _ => None::<Seq<Seq<char>>>,
        },
    decreases fs.len(),
{
    let g = fs.push(f);
    assert(g[0] == if fs.len() == 0 { f } else { fs[0] });
    if fs.len() == 0 {
        assert(g.drop_first() =~= Seq::<Seq<u8>>::empty());
        assert(unescape_all(g.drop_first()) == Some(Seq::<Seq<char>>::empty()));
        match unescaped(decode_utf8(f)) {
            Some(u) => {
                assert(seq![u] + Seq::<Seq<char>>::empty() =~= Seq::<Seq<char>>::empty().push(u));
            },
            None => {},
        }
    } else {
        assert(g.drop_first() =~= fs.drop_first().push(f));
        lemma_unescape_all_push(fs.drop_first(), f);
        match unescaped(decode_utf8(fs[0])) {
            Some(u0) => {
                match unescape_all(fs.drop_first()) {
                    Some(r) => {
                        assert(unescape_all(fs) == Some(seq![u0] + r));
                        match unescaped(decode_utf8(f)) {
                            Some(u) => {
                                assert(unescape_all(g.drop_first()) == Some(r.push(u)));
                                assert(seq![u0] + r.push(u) =~= (seq![u0] + r).push(u));
                            },
                            None => {
                                assert(unescape_all(g.drop_first()) is None);
                            },
                        }
                    },
                    None => {
                        assert(unescape_all(fs) is None);
                        assert(unescape_all(g.drop_first()) is None);
                    },
                }
            },
            None => {
                assert(unescape_all(fs) is None);
            },
        }
    }
}

proof fn lemma_unescape_all_none(fs: Seq<Seq<u8>>, i: int)
    requires
        0 <= i <= fs.len(),
        unescape_all(fs.take(i)) is None,
    ensures
        unescape_all(fs) is None,
    decreases fs.len() - i,
{
    if i < fs.len() {
        assert(fs.take(i + 1) =~= fs.take(i).push(fs[i]));
        lemma_unescape_all_push(fs.take(i), fs[i]);
        lemma_unescape_all_none(fs, i + 1);
    } else {
        assert(fs.take(i) =~= fs);
    }
}

fn interpret_output(line: &[u8], words: &Vec<(usize, usize)>) -> (r: LineResult)
    requires
        valid_utf8(line@),
        pieces(line@, words@) == split_on(line@, 0x20),
        words@.len() >= 1,
        forall|k: int|
            0 <= k < words@.len() ==> {
                &&& #[trigger] words@[k].0 <= words@[k].1 <= line@.len()
                &&& (words@[k].0 == 0 || line@[words@[k].0 - 1] == 0x20)
                &&& (words@[k].1 == line@.len() || line@[words@[k].1 as int] == 0x20)
            },
    ensures
        line_result_view(r) == spec_output(split_on(line@, 0x20).drop_first()),
{
    let ghost args = split_on(line@, 0x20).drop_first();
    if words.len() < 2 {
        return stop(Failure::MissingArgument);
    }
    let arg0 = slice_subrange(line, words[1].0, words[1].1);
    assert(arg0@ == args[0]);
    if !slices_at_exec(arg0, 1) {
        return stop(Failure::BadSlice);
    }
    let id = match parse_u64(slice_subrange(arg0, 1, arg0.len())) {
        Some(id) => id,
        None => {
            assert(arg0@.subrange(1, arg0@.len() as int) =~= args[0].skip(1));
            return stop(Failure::BadPaneId);
        },
    };
    assert(arg0@.subrange(1, arg0@.len() as int) =~= args[0].skip(1));
    if words.len() < 3 {
        let v = vec![Effect::OpenPane(id), Effect::Fail(Failure::MissingArgument)];
        assert(effects_view(v@) =~= seq![SpecEffect::OpenPane(id), SpecEffect::Fail(Failure::MissingArgument)]);
        return LineResult::Stop(v);
    }
    let ghost texts = args.skip(1);
    let mut parts: Vec<String> = Vec::new();
    let mut k: usize = 2;
    assert(texts.take(0) =~= Seq::<Seq<u8>>::empty());
    while k < words.len()
        invariant
            2 <= k <= words@.len(),
            valid_utf8(line@),
            args == split_on(line@, 0x20).drop_first(),
            args.len() >= 2,
            spec_parse_u64(args[0].skip(1)) == Some(id),
            slices_at(args[0], 1),
            texts == split_on(line@, 0x20).drop_first().skip(1),
            texts.len() == words@.len() - 2,
            pieces(line@, words@) == split_on(line@, 0x20),
            forall|j: int|
                0 <= j < words@.len() ==> {
                    &&& #[trigger] words@[j].0 <= words@[j].1 <= line@.len()
                    &&& (words@[j].0 == 0 || line@[words@[j].0 - 1] == 0x20)
                    &&& (words@[j].1 == line@.len() || line@[words@[j].1 as int] == 0x20)
                },
            unescape_all(texts.take(k - 2)) == Some(parts@.map_values(|p: String| p@)),
        decreases words@.len() - k,
    {
        let (a, b) = words[k];
        let piece = slice_subrange(line, a, b);
        assert(piece@ == texts[k - 2]);
        proof {
            lemma_valid_piece(line@, a as int, b as int);
        }
        let s = match str_from_utf8(piece) {
            Some(s) => s,
            // Not reached: a word of a valid line is valid UTF-8.
            None => {
                return stop(Failure::InvalidUtf8);
            },
        };
        proof {
            vstd::utf8::encode_utf8_decode_utf8(s@);
            assert(texts.take(k - 1) =~= texts.take(k - 2).push(texts[k - 2]));
            lemma_unescape_all_push(texts.take(k - 2), texts[k - 2]);
        }
        match unescape_str(s) {
            Some(u) => {
                let ghost old_parts = parts@.map_values(|p: String| p@);
                parts.push(u);
                assert(parts@.map_values(|p: String| p@) =~= old_parts.push(u@));
            },
            None => {
                proof {
                    assert(unescaped(decode_utf8(texts[k - 2])) is None);
                    assert(unescape_all(texts.take(k - 1)) is None);
                    lemma_unescape_all_none(texts, k - 1);
                    assert(unescape_all(texts) is None);
                    assert(texts == args.skip(1));
                }
                let v = vec![Effect::OpenPane(id), Effect::Fail(Failure::BadEscape)];
                assert(effects_view(v@) =~= seq![SpecEffect::OpenPane(id), SpecEffect::Fail(Failure::BadEscape)]);
                return LineResult::Stop(v);
            },
        }
        k = k + 1;
    }
    assert(texts.take(texts.len() as int) =~= texts);
    let text = join_with_spaces(&parts);
    let v = vec![Effect::OpenPane(id), Effect::WritePane(id, text)];
    assert(effects_view(v@) =~= seq![SpecEffect::OpenPane(id), SpecEffect::WritePane(id, text@)]);
    LineResult::Continue(v)
}

fn interpret_layout_change(line: &[u8], words: &Vec<(usize, usize)>) -> (r: LineResult)
    requires
        pieces(line@, words@) == split_on(line@, 0x20),
        words@.len() >= 1,
        forall|k: int|
            0 <= k < words@.len() ==> #[trigger] words@[k].0 <= words@[k].1 <= line@.len(),
    ensures
        line_result_view(r) == spec_layout_change(split_on(line@, 0x20).drop_first()),
{
    let ghost args = split_on(line@, 0x20).drop_first();
    if words.len() < 2 {
        return stop(Failure::MissingArgument);
    }
    let arg0 = slice_subrange(line, words[1].0, words[1].1);
    assert(arg0@ == args[0]);
    if !slices_at_exec(arg0, 1) {
        return stop(Failure::BadSlice);
    }
    if words.len() < 3 {
        return stop(Failure::MissingArgument);
    }
    let arg1 = slice_subrange(line, words[2].0, words[2].1);
    assert(arg1@ == args[1]);
    if !slices_at_exec(arg1, 5) {
        return stop(Failure::BadSlice);
    }
    let rest = slice_subrange(arg1, 5, arg1.len());
    assert(rest@ =~= args[1].skip(5));
    match layout_at(rest, 0) {
        Parsed::Done(_, l) => {
            let v = vec![Effect::LayoutChange(l)];
            assert(effects_view(v@) =~= seq![SpecEffect::LayoutChange(l@)]);
            LineResult::Continue(v)
        },
        Parsed::Error(e) => stop(Failure::BadLayout(e)),
        Parsed::Incomplete => stop(Failure::IncompleteLayout),
    }
}

/// What one control-mode line means.
pub fn interpret_line(line: &[u8]) -> (r: LineResult)
    ensures
        line_result_view(r) == spec_line(line@),
{
    if str_from_utf8(line).is_none() {
        return stop(Failure::InvalidUtf8);
    }
    let words = word_bounds(line);
    let first = slice_subrange(line, words[0].0, words[0].1);
    assert(first@ == split_on(line@, 0x20)[0]);
    let (ta, tb) = trim_bounds(first);
    let cmd = slice_subrange(first, ta, tb);
    let exit: [u8; 5] = [0x25, 0x65, 0x78, 0x69, 0x74];
    let layout_change: [u8; 14] = [
        0x25, 0x6c, 0x61, 0x79, 0x6f, 0x75, 0x74, 0x2d, 0x63, 0x68, 0x61, 0x6e, 0x67, 0x65,
    ];
    let output: [u8; 7] = [0x25, 0x6f, 0x75, 0x74, 0x70, 0x75, 0x74];
    let window_add: [u8; 11] = [0x25, 0x77, 0x69, 0x6e, 0x64, 0x6f, 0x77, 0x2d, 0x61, 0x64, 0x64];
    assert(exit@ =~= exit_cmd());
    assert(layout_change@ =~= layout_change_cmd());
    assert(output@ =~= output_cmd());
    assert(window_add@ =~= window_add_cmd());
    if bytes_eq(cmd, exit.as_slice()) {
        LineResult::Exit
    } else if bytes_eq(cmd, layout_change.as_slice()) {
        interpret_layout_change(line, &words)
    } else if bytes_eq(cmd, output.as_slice()) {
        interpret_output(line, &words)
    } else if bytes_eq(cmd, window_add.as_slice()) && words.len() < 2 {
        stop(Failure::MissingArgument)
    } else {
        let v: Vec<Effect> = Vec::new();
        assert(effects_view(v@) =~= Seq::<SpecEffect>::empty());
        LineResult::Continue(v)
    }
}

proof fn lemma_effects_view_append(a: Seq<Effect>, b: Seq<Effect>)
    ensures
        effects_view(a + b) == effects_view(a) + effects_view(b),
{
    assert(effects_view(a + b) =~= effects_view(a) + effects_view(b));
}

impl InputMode {
    /// Handles a chunk of the shell's output in this mode: the next mode and
    /// the effects to carry out, in order.
    pub fn handle_input(self, bytes: &[u8]) -> (r: (InputMode, Vec<Effect>))
        ensures
            (r.0@, effects_view(r.1@)) == spec_handle(self@, bytes@),
        decreases bytes@.len(), 1int,
    {
        match self {
            InputMode::LookingForTmuxDec => {
                let dec: [u8; 7] = [0x1b, 0x50, 0x31, 0x30, 0x30, 0x30, 0x70];
                assert(dec@ =~= tmux_dec());
                match find_bytes(bytes, dec.as_slice()) {
                    Some(x) => {
                        proof {
                            lemma_first_occurrence_from(bytes@, tmux_dec(), 0);
                            assert(occurs_at(bytes@, tmux_dec(), x as int));
                            assert(tmux_dec().len() == 7);
                            assert(x + 7 <= bytes@.len());
                        }
                        let len = bytes.len();
                        let rest = slice_subrange(bytes, x + 7, len);
                        assert(rest@ =~= bytes@.skip(x + 7));
                        let (m, mut e) = InputMode::TmuxWaiting(String::from_str("tmux")).handle_input(rest);
                        let mut out = vec![
                            Effect::WriteStdout(slice_to_vec(slice_subrange(bytes, 0, x))),
                            Effect::TmuxBanner,
                            Effect::I3Command(String::from_str("workspace tmux")),
                        ];
                        let ghost first = effects_view(out@);
                        assert(first =~= seq![
                            SpecEffect::WriteStdout(bytes@.take(x as int)),
                            SpecEffect::TmuxBanner,
                            SpecEffect::I3Command("workspace tmux"@),
                        ]);
                        let ghost old_out = out@;
                        let ghost old_e = e@;
                        out.append(&mut e);
                        proof {
                            lemma_effects_view_append(old_out, old_e);
                        }
                        (m, out)
                    },
                    None => {
                        let v = vec![Effect::WriteStdout(slice_to_vec(bytes)), Effect::FlushStdout];
                        assert(effects_view(v@) =~= seq![SpecEffect::WriteStdout(bytes@), SpecEffect::FlushStdout]);
                        (InputMode::LookingForTmuxDec, v)
                    },
                }
            },
            InputMode::TmuxWaiting(ws) => handle_waiting(ws, bytes),
            InputMode::TmuxCommandBlock(ws) => {
                let v: Vec<Effect> = Vec::new();
                assert(effects_view(v@) =~= Seq::<SpecEffect>::empty());
                (InputMode::TmuxCommandBlock(ws), v)
            },
        }
    }
}

fn handle_waiting(ws: String, bytes: &[u8]) -> (r: (InputMode, Vec<Effect>))
    ensures
        (r.0@, effects_view(r.1@)) == spec_waiting(ws@, bytes@),
    decreases bytes@.len(), 0int,
{
    let n = find_byte_from(bytes, 0, 0x0a);
    assert(bytes@.subrange(0, bytes@.len() as int) =~= bytes@);
    proof {
        crate::text::lemma_find_byte(bytes@, 0x0a);
    }
    let line = if n > 0 && bytes[n - 1] == 0x0d {
        slice_subrange(bytes, 0, n - 1)
    } else {
        slice_subrange(bytes, 0, n)
    };
    assert(line@ =~= strip_cr(bytes@.take(n as int)));
    match interpret_line(line) {
        LineResult::Exit => {
            if n < bytes.len() {
                let rest = slice_subrange(bytes, n + 1, bytes.len());
                assert(rest@ =~= bytes@.skip(n + 1));
                let (m, mut e) = InputMode::LookingForTmuxDec.handle_input(rest);
                let mut out = vec![Effect::ClearPanes];
                let ghost old_out = out@;
                let ghost old_e = e@;
                assert(effects_view(old_out) =~= seq![SpecEffect::ClearPanes]);
                out.append(&mut e);
                proof {
                    lemma_effects_view_append(old_out, old_e);
                }
                (m, out)
            } else {
                let v = vec![Effect::ClearPanes, Effect::Fail(Failure::ExitPastEnd)];
                assert(effects_view(v@) =~= seq![SpecEffect::ClearPanes, SpecEffect::Fail(Failure::ExitPastEnd)]);
                (InputMode::TmuxWaiting(ws), v)
            }
        },
        LineResult::Continue(mut e) => {
            if n < bytes.len() {
                let rest = slice_subrange(bytes, n + 1, bytes.len());
                assert(rest@ =~= bytes@.skip(n + 1));
                let (m, mut e2) = handle_waiting(ws, rest);
                let ghost old_e = e@;
                let ghost old_e2 = e2@;
                e.append(&mut e2);
                proof {
                    lemma_effects_view_append(old_e, old_e2);
                }
                (m, e)
            } else {
                (InputMode::TmuxWaiting(ws), e)
            }
        },
        LineResult::Stop(e) => (InputMode::TmuxWaiting(ws), e),
    }
}

/* Laws. */

/// No effect of `e` is a failure.
pub open spec fn no_failure(e: Seq<SpecEffect>) -> bool {
    forall|i: int| 0 <= i < e.len() ==> !(#[trigger] e[i] is Fail)
}

/// A failure, if any, is the last effect of `e`.
pub open spec fn failure_only_last(e: Seq<SpecEffect>) -> bool {
    forall|i: int| 0 <= i < e.len() - 1 ==> !(#[trigger] e[i] is Fail)
}

/// Every write to a pane comes right after the effect that opens that pane.
pub open spec fn opened_before_written(e: Seq<SpecEffect>) -> bool {
    forall|i: int|
        0 <= i < e.len() && #[trigger] e[i] is WritePane ==> i > 0 && e[i - 1] == SpecEffect::OpenPane(
            e[i]->WritePane_0,
        )
}

proof fn lemma_concat_laws(a: Seq<SpecEffect>, b: Seq<SpecEffect>)
    requires
        no_failure(a),
        opened_before_written(a),
        failure_only_last(b),
        opened_before_written(b),
    ensures
        failure_only_last(a + b),
        opened_before_written(a + b),
        no_failure(b) ==> no_failure(a + b),
{
    assert forall|i: int| 0 <= i < (a + b).len() - 1 implies !(#[trigger] (a + b)[i] is Fail) by {
        if i < a.len() {
            assert((a + b)[i] == a[i]);
        } else {
            assert((a + b)[i] == b[i - a.len()]);
        }
    }
    assert forall|i: int| 0 <= i < (a + b).len() && #[trigger] (a + b)[i] is WritePane implies i > 0
        && (a + b)[i - 1] == SpecEffect::OpenPane((a + b)[i]->WritePane_0) by {
        if i < a.len() {
            assert((a + b)[i] == a[i]);
            assert((a + b)[i - 1] == a[i - 1]);
        } else {
            assert((a + b)[i] == b[i - a.len()]);
            assert((a + b)[i - 1] == b[i - 1 - a.len()]);
        }
    }
    if no_failure(b) {
        assert forall|i: int| 0 <= i < (a + b).len() implies !(#[trigger] (a + b)[i] is Fail) by {
            if i < a.len() {
                assert((a + b)[i] == a[i]);
            } else {
                assert((a + b)[i] == b[i - a.len()]);
            }
        }
    }
}

proof fn lemma_line_laws(line: Seq<u8>)
    ensures
        spec_line(line) matches LineOutcome::Continue(e) ==> no_failure(e) && opened_before_written(e),
        spec_line(line) matches LineOutcome::Stop(e) ==> failure_only_last(e) && opened_before_written(e),
{
}

/// Whatever tmux sends, a failure can only be the last of the effects, and
/// text is only ever written to a pane right after that pane is opened.
pub proof fn lemma_effect_order(mode: SpecInputMode, bytes: Seq<u8>)
    ensures
        failure_only_last(spec_handle(mode, bytes).1),
        opened_before_written(spec_handle(mode, bytes).1),
    decreases bytes.len(), 1int,
{
    match mode {
        SpecInputMode::LookingForTmuxDec => {
            match first_occurrence(bytes, tmux_dec()) {
                Some(x) => {
                    lemma_first_occurrence_from(bytes, tmux_dec(), 0);
                    let rest = bytes.skip(x + 7);
                    lemma_effect_order(SpecInputMode::TmuxWaiting("tmux"@), rest);
                    let head = seq![
                        SpecEffect::WriteStdout(bytes.take(x)),
                        SpecEffect::TmuxBanner,
                        SpecEffect::I3Command("workspace tmux"@),
                    ];
                    lemma_concat_laws(head, spec_handle(SpecInputMode::TmuxWaiting("tmux"@), rest).1);
                },
                None => {},
            }
        },
        SpecInputMode::TmuxWaiting(ws) => {
            lemma_waiting_effect_order(ws, bytes);
        },
        SpecInputMode::TmuxCommandBlock(_) => {},
    }
}

proof fn lemma_waiting_effect_order(ws: Seq<char>, bytes: Seq<u8>)
    ensures
        failure_only_last(spec_waiting(ws, bytes).1),
        opened_before_written(spec_waiting(ws, bytes).1),
    decreases bytes.len(), 0int,
{
    let n = find_byte(bytes, 0x0a);
    crate::text::lemma_find_byte(bytes, 0x0a);
    let line = strip_cr(bytes.take(n));
    lemma_line_laws(line);
    match spec_line(line) {
        LineOutcome::Exit => {
            if n < bytes.len() {
                lemma_effect_order(SpecInputMode::LookingForTmuxDec, bytes.skip(n + 1));
                lemma_concat_laws(
                    seq![SpecEffect::ClearPanes],
                    spec_handle(SpecInputMode::LookingForTmuxDec, bytes.skip(n + 1)).1,
                );
            }
        },
        LineOutcome::Continue(e) => {
            if n < bytes.len() {
                lemma_waiting_effect_order(ws, bytes.skip(n + 1));
                lemma_concat_laws(e, spec_waiting(ws, bytes.skip(n + 1)).1);
            }
        },
        LineOutcome::Stop(e) => {},
    }
}

/// Before tmux starts control mode, output that does not hold the control
/// mode sequence is passed through unchanged and flushed, and the mode stays.
pub proof fn lemma_pass_through(bytes: Seq<u8>)
    requires
        first_occurrence(bytes, tmux_dec()) is None,
    ensures
        spec_handle(SpecInputMode::LookingForTmuxDec, bytes) == (
            SpecInputMode::LookingForTmuxDec,
            seq![SpecEffect::WriteStdout(bytes), SpecEffect::FlushStdout],
        ),
{
}

/// Once control mode is on, a command reply block swallows whatever comes.
pub proof fn lemma_command_block_absorbs(ws: Seq<char>, bytes: Seq<u8>)
    ensures
        spec_handle(SpecInputMode::TmuxCommandBlock(ws), bytes) == (
            SpecInputMode::TmuxCommandBlock(ws),
            Seq::<SpecEffect>::empty(),
        ),
{
}

/// In control mode, `%exit` on a line of its own ends control mode: the
/// panes are forgotten and whatever follows is handled as plain output.
pub proof fn lemma_exit_ends_control_mode(ws: Seq<char>, rest: Seq<u8>)
    ensures
        spec_handle(SpecInputMode::TmuxWaiting(ws), exit_cmd() + seq![0x0a] + rest) == (
            spec_handle(SpecInputMode::LookingForTmuxDec, rest).0,
            seq![SpecEffect::ClearPanes] + spec_handle(SpecInputMode::LookingForTmuxDec, rest).1,
        ),
{
    let cmd = exit_cmd();
    let bytes = cmd + seq![0x0a] + rest;
    assert forall|k: int| 0 <= k < 5 implies bytes[k] != 0x0a by {
        assert(bytes[k] == cmd[k]);
    }
    assert(bytes[5] == 0x0a);
    crate::text::lemma_find_byte_at(bytes, 0x0a, 5);
    assert(bytes.take(5) =~= cmd);
    assert(strip_cr(bytes.take(5)) == cmd);
    crate::text::lemma_ascii_utf8(cmd);
    crate::text::lemma_find_byte_at(cmd, 0x20, 5);
    assert(cmd.take(5) =~= cmd);
    assert(split_on(cmd, 0x20) == seq![cmd]);
    assert(crate::text::space_len_at(cmd, 0) == 0);
    assert(crate::text::trim_start_from(cmd, 0) == 0);
    assert(crate::text::space_len_before(cmd, 5) == 0);
    assert(crate::text::trim_end_from(cmd, 0, 5) == 5);
    assert(cmd.subrange(0, 5) =~= cmd);
    assert(trim(cmd) == cmd);
    assert(spec_line(cmd) == LineOutcome::Exit);
    assert(bytes.skip(6) =~= rest);
    assert(spec_handle(SpecInputMode::TmuxWaiting(ws), bytes) == spec_waiting(ws, bytes));
    let (m, e) = spec_handle(SpecInputMode::LookingForTmuxDec, rest);
    assert(spec_waiting(ws, bytes) == (m, seq![SpecEffect::ClearPanes] + e));
}

proof fn lemma_trim_literal(cmd: Seq<u8>)
    requires
        cmd.len() >= 2,
        cmd[0] == 0x25,
        0x61 <= cmd[cmd.len() - 1] <= 0x7a,
    ensures
        trim(cmd) == cmd,
{
    let n = cmd.len() as int;
    assert(crate::text::space_len_at(cmd, 0) == 0);
    assert(crate::text::trim_start_from(cmd, 0) == 0);
    assert(crate::text::space_len_before(cmd, n) == 0);
    assert(crate::text::trim_end_from(cmd, 0, n) == n);
    assert(cmd.subrange(0, n) =~= cmd);
}

proof fn lemma_three_words(cmd: Seq<u8>, a: Seq<u8>, b: Seq<u8>)
    requires
        crate::text::is_word(cmd),
        crate::text::is_word(a),
        crate::text::is_word(b),
    ensures
        valid_utf8(cmd + seq![0x20] + a + seq![0x20] + b),
        split_on(cmd + seq![0x20] + a + seq![0x20] + b, 0x20) == seq![cmd, a, b],
{
    let line = cmd + seq![0x20] + a + seq![0x20] + b;
    assert forall|i: int| 0 <= i < line.len() implies #[trigger] line[i] < 0x80 by {
        if i < cmd.len() {
            assert(line[i] == cmd[i]);
        } else if i == cmd.len() {
        } else if i < cmd.len() + 1 + a.len() {
            assert(line[i] == a[i - cmd.len() - 1]);
        } else if i == cmd.len() + 1 + a.len() {
        } else {
            assert(line[i] == b[i - cmd.len() - 2 - a.len()]);
        }
    }
    crate::text::lemma_ascii_utf8(line);
    assert(line =~= cmd + seq![0x20] + (a + seq![0x20] + b));
    crate::text::lemma_split_word_space(cmd, a + seq![0x20] + b);
    crate::text::lemma_split_word_space(a, b);
    crate::text::lemma_split_word(b);
    assert(seq![cmd] + (seq![a] + seq![b]) =~= seq![cmd, a, b]);
}

proof fn lemma_layout_change_args(window: Seq<u8>, checksum: Seq<u8>, l: SpecLayout)
    requires
        crate::text::is_word(window),
        window.len() >= 1,
        checksum.len() == 4,
        crate::layout::well_formed(l),
    ensures
        spec_layout_change(seq![window, checksum + seq![0x2c] + crate::layout::layout_text(l)])
            == LineOutcome::Continue(seq![SpecEffect::LayoutChange(l)]),
{
    let lt = crate::layout::layout_text(l);
    let arg1 = checksum + seq![0x2c] + lt;
    let args = seq![window, arg1];
    crate::layout::lemma_layout_round_trip(l, seq![]);
    assert(lt + Seq::<u8>::empty() =~= lt);
    assert(arg1.skip(5) =~= lt);
    crate::layout::lemma_text_starts_with_digit(l);
    assert(arg1[5] == lt[0]);
    if window.len() > 1 {
        assert(window[1] < 0x80);
    }
    assert(slices_at(args[0], 1));
    assert(slices_at(args[1], 5));
}

/// A layout change that tmux announces, `%layout-change <window> <checksum>,<layout>`,
/// reaches the caller as the layout it describes.
pub proof fn lemma_layout_change_reported(window: Seq<u8>, checksum: Seq<u8>, l: SpecLayout)
    requires
        crate::text::is_word(window),
        window.len() >= 1,
        crate::text::is_word(checksum),
        checksum.len() == 4,
        crate::layout::well_formed(l),
    ensures
        spec_line(
            layout_change_cmd() + seq![0x20] + window + seq![0x20] + (checksum + seq![0x2c]
                + crate::layout::layout_text(l)),
        ) == LineOutcome::Continue(seq![SpecEffect::LayoutChange(l)]),
{
    let cmd = layout_change_cmd();
    let lt = crate::layout::layout_text(l);
    let arg1 = checksum + seq![0x2c] + lt;
    crate::layout::lemma_layout_text_word(l);
    assert(crate::text::is_word(arg1)) by {
        assert forall|i: int| 0 <= i < arg1.len() implies #[trigger] arg1[i] < 0x80 && arg1[i] != 0x20 by {
            if i < 4 {
                assert(arg1[i] == checksum[i]);
            } else if i > 4 {
                assert(arg1[i] == lt[i - 5]);
            }
        }
    }
    lemma_three_words(cmd, window, arg1);
    lemma_trim_literal(cmd);
    assert(cmd != exit_cmd());
    let fields = seq![cmd, window, arg1];
    assert(fields.drop_first() =~= seq![window, arg1]);
    lemma_layout_change_args(window, checksum, l);
}


/// Every line of `pre` ends with a newline and, handled as a control-mode
/// line, neither ends control mode nor fails.
pub open spec fn continuing_lines(pre: Seq<u8>) -> bool
    decreases pre.len(),
{
    if pre.len() == 0 {
        true
    } else {
        let n = find_byte(pre, 0x0a);
        proof {
            crate::text::lemma_find_byte(pre, 0x0a);
        }
        n < pre.len() && spec_line(strip_cr(pre.take(n))) is Continue && continuing_lines(
            pre.skip(n + 1),
        )
    }
}

/// Every line of `pre` ends with a newline, and none is an `%exit` line.
pub open spec fn no_exit_lines(pre: Seq<u8>) -> bool
    decreases pre.len(),
{
    if pre.len() == 0 {
        true
    } else {
        let n = find_byte(pre, 0x0a);
        proof {
            crate::text::lemma_find_byte(pre, 0x0a);
        }
        n < pre.len() && !(spec_line(strip_cr(pre.take(n))) is Exit) && no_exit_lines(
            pre.skip(n + 1),
        )
    }
}

/// The effects of the lines of `pre`, each handled as a control-mode line,
/// in order (of lines that continue).
pub open spec fn lines_effects(pre: Seq<u8>) -> Seq<SpecEffect>
    decreases pre.len(),
{
    if pre.len() == 0 {
        seq![]
    } else {
        let n = find_byte(pre, 0x0a);
        proof {
            crate::text::lemma_find_byte(pre, 0x0a);
        }
        if n < pre.len() {
            match spec_line(strip_cr(pre.take(n))) {
                LineOutcome::Continue(e) => e + lines_effects(pre.skip(n + 1)),
                _ => seq![],
            }
        } else {
            seq![]
        }
    }
}

/// The first newline of `pre + x` is that of `pre`, when `pre` has one.
proof fn lemma_first_line_of_concat(pre: Seq<u8>, x: Seq<u8>)
    requires
        find_byte(pre, 0x0a) < pre.len(),
    ensures
        find_byte(pre + x, 0x0a) == find_byte(pre, 0x0a),
        (pre + x).take(find_byte(pre, 0x0a)) == pre.take(find_byte(pre, 0x0a)),
        (pre + x).skip(find_byte(pre, 0x0a) + 1) == pre.skip(find_byte(pre, 0x0a) + 1) + x,
{
    let n = find_byte(pre, 0x0a);
    crate::text::lemma_find_byte(pre, 0x0a);
    assert forall|k: int| 0 <= k < n implies (pre + x)[k] != 0x0a by {
        assert((pre + x)[k] == pre[k]);
    }
    assert((pre + x)[n] == pre[n]);
    crate::text::lemma_find_byte_at(pre + x, 0x0a, n);
    assert((pre + x).take(n) =~= pre.take(n));
    assert((pre + x).skip(n + 1) =~= pre.skip(n + 1) + x);
}

/// The first line of `line + end + rest` is `line`, and `rest` follows it,
/// when `line` holds no newline and `end` is a newline, or a carriage return
/// and a newline.
proof fn lemma_line_then(line: Seq<u8>, end: Seq<u8>, rest: Seq<u8>)
    requires
        !line.contains(0x0a),
        end == seq![0x0au8] || end == seq![0x0du8, 0x0au8],
    ensures
        find_byte(line + end + rest, 0x0a) == line.len() + end.len() - 1,
        (line + end + rest).take(line.len() + end.len() - 1) == line + end.drop_last(),
        (line + end + rest).skip((line.len() + end.len()) as int) == rest,
{
    let t = line + end + rest;
    let j = line.len() + end.len() - 1;
    assert forall|k: int| 0 <= k < j implies t[k] != 0x0a by {
        if k < line.len() {
            assert(t[k] == line[k]);
            if line[k] == 0x0a {
                assert(line.contains(0x0a));
            }
        } else {
            assert(t[k] == end[k - line.len()]);
        }
    }
    assert(t[j] == end[end.len() - 1]);
    crate::text::lemma_find_byte_at(t, 0x0a, j);
    assert(t.take(j) =~= line + end.drop_last());
    assert(t.skip((line.len() + end.len()) as int) =~= rest);
}

proof fn lemma_waiting_after_lines(ws: Seq<char>, pre: Seq<u8>, x: Seq<u8>)
    requires
        continuing_lines(pre),
    ensures
        spec_waiting(ws, pre + x) == (
            spec_waiting(ws, x).0,
            lines_effects(pre) + spec_waiting(ws, x).1,
        ),
    decreases pre.len(),
{
    if pre.len() == 0 {
        assert(pre + x =~= x);
        assert(lines_effects(pre) + spec_waiting(ws, x).1 =~= spec_waiting(ws, x).1);
    } else {
        let n = find_byte(pre, 0x0a);
        crate::text::lemma_find_byte(pre, 0x0a);
        lemma_first_line_of_concat(pre, x);
        let rest = pre.skip(n + 1);
        lemma_waiting_after_lines(ws, rest, x);
        match spec_line(strip_cr(pre.take(n))) {
            LineOutcome::Continue(e) => {
                assert(lines_effects(pre) == e + lines_effects(rest));
                assert(e + (lines_effects(rest) + spec_waiting(ws, x).1) =~= e + lines_effects(
                    rest,
                ) + spec_waiting(ws, x).1);
            },
            _ => {},
        }
    }
}

/// In control mode, after lines that all continue, a line that means `%exit`
/// (its first word, trimmed, is `%exit`) ends control mode: the earlier
/// lines take effect, the panes are forgotten, and whatever follows is
/// handled as plain output.
pub proof fn lemma_exit_after_lines(ws: Seq<char>, pre: Seq<u8>, line: Seq<u8>, rest: Seq<u8>)
    requires
        continuing_lines(pre),
        !line.contains(0x0a),
        spec_line(strip_cr(line)) is Exit,
    ensures
        spec_handle(SpecInputMode::TmuxWaiting(ws), pre + line + seq![0x0a] + rest) == (
            spec_handle(SpecInputMode::LookingForTmuxDec, rest).0,
            lines_effects(pre) + seq![SpecEffect::ClearPanes] + spec_handle(
                SpecInputMode::LookingForTmuxDec,
                rest,
            ).1,
        ),
{
    let x = line + seq![0x0au8] + rest;
    assert(pre + line + seq![0x0a] + rest =~= pre + x);
    lemma_waiting_after_lines(ws, pre, x);
    lemma_line_then(line, seq![0x0au8], rest);
    assert(line + seq![0x0au8].drop_last() =~= line);
    let (m, e) = spec_handle(SpecInputMode::LookingForTmuxDec, rest);
    assert(spec_waiting(ws, x) == (m, seq![SpecEffect::ClearPanes] + e));
    assert(lines_effects(pre) + (seq![SpecEffect::ClearPanes] + e) =~= lines_effects(pre) + seq![
        SpecEffect::ClearPanes,
    ] + e);
}

/// In control mode, a carriage return before a line's newline changes
/// nothing, as long as no earlier line ends control mode.
pub proof fn lemma_carriage_return_ignored(ws: Seq<char>, pre: Seq<u8>, line: Seq<u8>, post: Seq<u8>)
    requires
        no_exit_lines(pre),
        !line.contains(0x0a),
        line.len() == 0 || line.last() != 0x0d,
    ensures
        spec_handle(SpecInputMode::TmuxWaiting(ws), pre + line + seq![0x0a] + post) == spec_handle(
            SpecInputMode::TmuxWaiting(ws),
            pre + line + seq![0x0d, 0x0a] + post,
        ),
    decreases pre.len(),
{
    let a = line + seq![0x0au8] + post;
    let b = line + seq![0x0du8, 0x0au8] + post;
    assert(pre + line + seq![0x0a] + post =~= pre + a);
    assert(pre + line + seq![0x0d, 0x0a] + post =~= pre + b);
    if pre.len() == 0 {
        assert(pre + a =~= a);
        assert(pre + b =~= b);
        lemma_line_then(line, seq![0x0au8], post);
        lemma_line_then(line, seq![0x0du8, 0x0au8], post);
        assert(line + seq![0x0au8].drop_last() =~= line);
        assert(line + seq![0x0du8, 0x0au8].drop_last() =~= line.push(0x0d));
        assert(strip_cr(line.push(0x0d)) =~= line);
        assert(strip_cr(line) == line);
        assert(a.take(line.len() as int) == line);
        assert(strip_cr(b.take(line.len() + 1int)) == line);
        assert(a.skip(line.len() + 1int) == post);
        assert(b.skip(line.len() + 2int) == post);
        assert(spec_waiting(ws, a) == spec_waiting(ws, b));
    } else {
        let n = find_byte(pre, 0x0a);
        crate::text::lemma_find_byte(pre, 0x0a);
        lemma_first_line_of_concat(pre, a);
        lemma_first_line_of_concat(pre, b);
        let rest = pre.skip(n + 1);
        lemma_carriage_return_ignored(ws, rest, line, post);
        assert(rest + line + seq![0x0a] + post =~= rest + a);
        assert(rest + line + seq![0x0d, 0x0a] + post =~= rest + b);
        assert(spec_waiting(ws, rest + a) == spec_waiting(ws, rest + b));
        assert(spec_waiting(ws, pre + a) == spec_waiting(ws, pre + b));
    }
}


/* Laws on single notifications, whatever else the line holds. */

/// A piece without a space, then a space, is the first piece of a line.
proof fn lemma_split_piece_space(a: Seq<u8>, b: Seq<u8>)
    requires
        !a.contains(0x20),
    ensures
        split_on(a + seq![0x20] + b, 0x20) == seq![a] + split_on(b, 0x20),
{
    let s = a + seq![0x20] + b;
    assert forall|k: int| 0 <= k < a.len() implies s[k] != 0x20 by {
        assert(s[k] == a[k]);
        if a[k] == 0x20 {
            assert(a.contains(0x20));
        }
    }
    assert(s[a.len() as int] == 0x20);
    crate::text::lemma_find_byte_at(s, 0x20, a.len() as int);
    assert(s.take(a.len() as int) =~= a);
    assert(s.skip(a.len() as int + 1) =~= b);
}

/// A piece without a space is the only piece of itself.
proof fn lemma_split_piece(a: Seq<u8>)
    requires
        !a.contains(0x20),
    ensures
        split_on(a, 0x20) == seq![a],
{
    assert forall|k: int| 0 <= k < a.len() implies a[k] != 0x20 by {
        if a[k] == 0x20 {
            assert(a.contains(0x20));
        }
    }
    crate::text::lemma_find_byte_at(a, 0x20, a.len() as int);
    assert(a.take(a.len() as int) =~= a);
}

/// The words `ws` with one space between each two (an empty word leaves two
/// spaces side by side, or a space at an end).
pub open spec fn join_words(ws: Seq<Seq<u8>>) -> Seq<u8>
    decreases ws.len(),
{
    if ws.len() == 0 {
        seq![]
    } else if ws.len() == 1 {
        ws[0]
    } else {
        ws[0] + seq![0x20] + join_words(ws.drop_first())
    }
}

proof fn lemma_split_join(ws: Seq<Seq<u8>>)
    requires
        ws.len() >= 1,
        forall|i: int| 0 <= i < ws.len() ==> !(#[trigger] ws[i]).contains(0x20),
    ensures
        split_on(join_words(ws), 0x20) == ws,
    decreases ws.len(),
{
    if ws.len() == 1 {
        lemma_split_piece(ws[0]);
        assert(seq![ws[0]] =~= ws);
    } else {
        let rest = ws.drop_first();
        assert forall|i: int| 0 <= i < rest.len() implies !(#[trigger] rest[i]).contains(0x20) by {
            assert(rest[i] == ws[i + 1]);
        }
        lemma_split_join(rest);
        lemma_split_piece_space(ws[0], join_words(rest));
        assert(seq![ws[0]] + rest =~= ws);
    }
}

proof fn lemma_unescape_words(ws: Seq<Seq<u8>>, us: Seq<Seq<char>>)
    requires
        ws.len() == us.len(),
        forall|i: int| 0 <= i < ws.len() ==> unescaped(decode_utf8(#[trigger] ws[i])) == Some(us[i]),
    ensures
        unescape_all(ws) == Some(us),
    decreases ws.len(),
{
    if ws.len() == 0 {
        assert(us =~= Seq::<Seq<char>>::empty());
    } else {
        let (wr, ur) = (ws.drop_first(), us.drop_first());
        assert forall|i: int| 0 <= i < wr.len() implies unescaped(decode_utf8(#[trigger] wr[i])) == Some(
            ur[i],
        ) by {
            assert(wr[i] == ws[i + 1]);
        }
        lemma_unescape_words(wr, ur);
        assert(unescaped(decode_utf8(ws[0])) == Some(us[0]));
        assert(seq![us[0]] + ur =~= us);
    }
}

/// `%output %<pane> <words>`: the pane is opened and gets the words of the
/// line after its id, each unescaped, joined with one space for each space
/// that separates them in the line. Empty words count, so a trailing space or
/// a run of spaces in the output reaches the pane.
pub proof fn lemma_output_writes_words(id: u64, ws: Seq<Seq<u8>>, us: Seq<Seq<char>>)
    requires
        ws.len() >= 1,
        ws.len() == us.len(),
        forall|i: int|
            0 <= i < ws.len() ==> !(#[trigger] ws[i]).contains(0x20) && unescaped(decode_utf8(ws[i]))
                == Some(us[i]),
        valid_utf8(output_cmd() + seq![0x20, 0x25] + crate::decimal::decimal(id as nat) + seq![0x20]
            + join_words(ws)),
    ensures
        spec_line(
            output_cmd() + seq![0x20, 0x25] + crate::decimal::decimal(id as nat) + seq![0x20] + join_words(
                ws,
            ),
        ) == LineOutcome::Continue(
            seq![SpecEffect::OpenPane(id), SpecEffect::WritePane(id, join_spaces(us))],
        ),
{
    let cmd = output_cmd();
    let d = crate::decimal::decimal(id as nat);
    let w = seq![0x25u8] + d;
    let j = join_words(ws);
    let line = cmd + seq![0x20, 0x25] + d + seq![0x20] + j;
    assert(line =~= cmd + seq![0x20u8] + (w + seq![0x20u8] + j));
    crate::decimal::lemma_decimal_digits(id as nat);
    crate::decimal::lemma_parse_decimal(id);
    assert(!cmd.contains(0x20)) by {
        if cmd.contains(0x20) {
            let k = choose|k: int| 0 <= k < cmd.len() && cmd[k] == 0x20;
        }
    }
    assert(!w.contains(0x20)) by {
        if w.contains(0x20) {
            let k = choose|k: int| 0 <= k < w.len() && w[k] == 0x20;
            if k > 0 {
                assert(w[k] == d[k - 1]);
                assert(crate::decimal::is_digit(d[k - 1]));
            }
        }
    }
    lemma_split_piece_space(cmd, w + seq![0x20u8] + j);
    lemma_split_piece_space(w, j);
    lemma_split_join(ws);
    let fields = split_on(line, 0x20);
    assert(fields == seq![cmd] + (seq![w] + ws));
    assert(fields[0] == cmd);
    lemma_trim_literal(cmd);
    let args = fields.drop_first();
    assert(args =~= seq![w] + ws);
    assert(args[0] == w);
    assert(w[1] == d[0]);
    assert(crate::decimal::is_digit(d[0]));
    assert(slices_at(args[0], 1));
    assert(w.skip(1) =~= d);
    assert(args.skip(1) =~= ws);
    lemma_unescape_words(ws, us);
}

/// `%exit` ends control mode whatever words follow it on its line (tmux
/// gives a reason there, such as `detached`).
pub proof fn lemma_exit_with_reason(reason: Seq<u8>)
    requires
        valid_utf8(exit_cmd() + seq![0x20] + reason),
    ensures
        spec_line(exit_cmd() + seq![0x20] + reason) == LineOutcome::Exit,
{
    let cmd = exit_cmd();
    assert(!cmd.contains(0x20)) by {
        if cmd.contains(0x20) {
            let k = choose|k: int| 0 <= k < cmd.len() && cmd[k] == 0x20;
        }
    }
    lemma_split_piece_space(cmd, reason);
    assert(split_on(cmd + seq![0x20] + reason, 0x20)[0] == cmd);
    lemma_trim_literal(cmd);
}

/// A layout change reaches the caller as the layout of its second argument,
/// whatever further words follow (tmux adds the visible layout and the
/// window flags there).
pub proof fn lemma_layout_change_with_more_words(
    window: Seq<u8>,
    checksum: Seq<u8>,
    l: SpecLayout,
    more: Seq<u8>,
)
    requires
        crate::text::is_word(window),
        window.len() >= 1,
        crate::text::is_word(checksum),
        checksum.len() == 4,
        crate::layout::well_formed(l),
        valid_utf8(layout_change_cmd() + seq![0x20] + window + seq![0x20] + (checksum + seq![0x2c]
            + crate::layout::layout_text(l)) + seq![0x20] + more),
    ensures
        spec_line(
            layout_change_cmd() + seq![0x20] + window + seq![0x20] + (checksum + seq![0x2c]
                + crate::layout::layout_text(l)) + seq![0x20] + more,
        ) == LineOutcome::Continue(seq![SpecEffect::LayoutChange(l)]),
{
    let cmd = layout_change_cmd();
    let lt = crate::layout::layout_text(l);
    let arg1 = checksum + seq![0x2c] + lt;
    let line = cmd + seq![0x20] + window + seq![0x20] + arg1 + seq![0x20] + more;
    crate::layout::lemma_layout_text_word(l);
    assert(crate::text::is_word(arg1)) by {
        assert forall|i: int| 0 <= i < arg1.len() implies #[trigger] arg1[i] < 0x80 && arg1[i] != 0x20 by {
            if i < 4 {
                assert(arg1[i] == checksum[i]);
            } else if i > 4 {
                assert(arg1[i] == lt[i - 5]);
            }
        }
    }
    assert(line =~= cmd + seq![0x20u8] + (window + seq![0x20u8] + (arg1 + seq![0x20u8] + more)));
    crate::text::lemma_split_word_space(cmd, window + seq![0x20u8] + (arg1 + seq![0x20u8] + more));
    crate::text::lemma_split_word_space(window, arg1 + seq![0x20u8] + more);
    crate::text::lemma_split_word_space(arg1, more);
    let fields = split_on(line, 0x20);
    assert(fields =~= seq![cmd, window, arg1] + split_on(more, 0x20));
    lemma_trim_literal(cmd);
    assert(cmd != exit_cmd());
    let args = fields.drop_first();
    assert(args =~= seq![window, arg1] + split_on(more, 0x20));
    lemma_layout_change_args(window, checksum, l);
    assert(spec_layout_change(args) == spec_layout_change(seq![window, arg1]));
}

proof fn lemma_first_occurrence_is(t: Seq<u8>, p: Seq<u8>, i: int, x: int)
    requires
        0 <= i <= x,
        occurs_at(t, p, x),
        forall|k: int| 0 <= k < x ==> !#[trigger] occurs_at(t, p, k),
    ensures
        first_occurrence_from(t, p, i) == Some(x),
    decreases x - i,
{
    if i < x {
        assert(!occurs_at(t, p, i));
        lemma_first_occurrence_is(t, p, i + 1, x);
    }
}

/// Before control mode, the first start sequence in the shell's output
/// switches to control mode there: the output before it is written, the
/// banner and the i3 workspace command follow, and the rest of the same
/// chunk is handled in control mode, with the mode and effects that it gives
/// there.
pub proof fn lemma_start_then_rest(bytes: Seq<u8>, x: int)
    requires
        occurs_at(bytes, tmux_dec(), x),
        forall|k: int| 0 <= k < x ==> !#[trigger] occurs_at(bytes, tmux_dec(), k),
    ensures
        spec_handle(SpecInputMode::LookingForTmuxDec, bytes) == (
            spec_handle(SpecInputMode::TmuxWaiting("tmux"@), bytes.skip(x + 7)).0,
            seq![
                SpecEffect::WriteStdout(bytes.take(x)),
                SpecEffect::TmuxBanner,
                SpecEffect::I3Command("workspace tmux"@),
            ] + spec_handle(SpecInputMode::TmuxWaiting("tmux"@), bytes.skip(x + 7)).1,
        ),
{
    lemma_first_occurrence_is(bytes, tmux_dec(), 0, x);
}

} // verus!
