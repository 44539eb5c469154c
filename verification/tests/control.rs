use i3_tmux_integration::control::{interpret_line, join_with_spaces, Effect, Failure, InputMode, LineResult};
use i3_tmux_integration::layout::{Container, LayoutError};

fn run(mode: InputMode, bytes: &[u8]) -> (InputMode, Vec<Effect>) {
    mode.handle_input(bytes)
}

fn waiting() -> InputMode {
    InputMode::TmuxWaiting("tmux".to_string())
}

#[test]
fn output_passes_through_before_control_mode() {
    let (mode, effects) = run(InputMode::LookingForTmuxDec, b"hello\r\n");
    assert!(matches!(mode, InputMode::LookingForTmuxDec));
    assert_eq!(effects.len(), 2);
    assert!(matches!(&effects[0], Effect::WriteStdout(b) if b.as_slice() == b"hello\r\n"));
    assert!(matches!(effects[1], Effect::FlushStdout));
}

#[test]
fn dec_sequence_starts_control_mode() {
    let (mode, effects) = run(InputMode::LookingForTmuxDec, b"ab\x1bP1000p%begin 1 2 3\n%end 1 2 3\n");
    match mode {
        InputMode::TmuxWaiting(ws) => assert_eq!(ws, "tmux"),
        other => panic!("unexpected {:?}", other),
    }
    assert_eq!(effects.len(), 3);
    assert!(matches!(&effects[0], Effect::WriteStdout(b) if b.as_slice() == b"ab"));
    assert!(matches!(effects[1], Effect::TmuxBanner));
    assert!(matches!(&effects[2], Effect::I3Command(c) if c == "workspace tmux"));
}

#[test]
fn output_notification_writes_to_the_pane() {
    let (mode, effects) = run(waiting(), b"%output %1 hello\\040world\r\n%output %2 a b\\nc\n");
    assert!(matches!(mode, InputMode::TmuxWaiting(_)));
    assert_eq!(effects.len(), 4);
    assert!(matches!(effects[0], Effect::OpenPane(1)));
    assert!(matches!(&effects[1], Effect::WritePane(1, t) if t == "hello world"));
    assert!(matches!(effects[2], Effect::OpenPane(2)));
    assert!(matches!(&effects[3], Effect::WritePane(2, t) if t == "a b\nc"));
}

#[test]
fn exit_returns_to_pass_through() {
    let (mode, effects) = run(waiting(), b"%exit\nplain");
    assert!(matches!(mode, InputMode::LookingForTmuxDec));
    assert_eq!(effects.len(), 3);
    assert!(matches!(effects[0], Effect::ClearPanes));
    assert!(matches!(&effects[1], Effect::WriteStdout(b) if b.as_slice() == b"plain"));
    assert!(matches!(effects[2], Effect::FlushStdout));
}

#[test]
fn exit_with_carriage_return_and_trimmed_command() {
    let (mode, effects) = run(waiting(), b"\t%exit\t\r\n");
    assert!(matches!(mode, InputMode::LookingForTmuxDec));
    assert!(matches!(effects[0], Effect::ClearPanes));
    assert!(matches!(&effects[1], Effect::WriteStdout(b) if b.is_empty()));
}

#[test]
fn exit_on_the_last_unterminated_line_fails() {
    let (_, effects) = run(waiting(), b"%exit");
    assert_eq!(effects.len(), 2);
    assert!(matches!(effects[0], Effect::ClearPanes));
    assert!(matches!(effects[1], Effect::Fail(Failure::ExitPastEnd)));
}

#[test]
fn leading_space_hides_the_command() {
    let (mode, effects) = run(waiting(), b" %exit\n");
    assert!(matches!(mode, InputMode::TmuxWaiting(_)));
    assert!(effects.is_empty());
}

#[test]
fn layout_change_parses_the_layout() {
    let (_, effects) = run(waiting(), b"%layout-change @1 b25d,80x24,0,0,1\n");
    assert_eq!(effects.len(), 1);
    match &effects[0] {
        Effect::LayoutChange(l) => {
            assert_eq!(l.width(), 80);
            assert!(matches!(l.contains(), Container::Pane(1)));
        }
        other => panic!("unexpected {:?}", other),
    }
}

#[test]
fn layout_change_failures() {
    let cases: Vec<(&[u8], Failure)> = vec![
        (b"%layout-change\n", Failure::MissingArgument),
        (b"%layout-change @1\n", Failure::MissingArgument),
        (b"%layout-change  x\n", Failure::BadSlice),
        (b"%layout-change @1 abc\n", Failure::BadSlice),
        (b"%layout-change @1 b25d,80x24,0,0\n", Failure::IncompleteLayout),
        (b"%layout-change @1 b25d,80x24,0,0;\n", Failure::BadLayout(LayoutError::Alt)),
    ];
    for (input, failure) in cases {
        let (_, effects) = run(waiting(), input);
        assert_eq!(effects.len(), 1, "{:?}", input);
        match &effects[0] {
            Effect::Fail(f) => assert_eq!(*f, failure),
            other => panic!("unexpected {:?}", other),
        }
    }
}

#[test]
fn output_failures() {
    let (_, e) = run(waiting(), b"%output\n");
    assert!(matches!(e[..], [Effect::Fail(Failure::MissingArgument)]));
    let (_, e) = run(waiting(), b"%output %x hi\n");
    assert!(matches!(e[..], [Effect::Fail(Failure::BadPaneId)]));
    let (_, e) = run(waiting(), b"%output %3\n");
    assert!(matches!(e[..], [Effect::OpenPane(3), Effect::Fail(Failure::MissingArgument)]));
    let (_, e) = run(waiting(), b"%output %3 bad\\q\n");
    assert!(matches!(e[..], [Effect::OpenPane(3), Effect::Fail(Failure::BadEscape)]));
    let (_, e) = run(waiting(), "%output é3 x\n".as_bytes());
    assert!(matches!(e[..], [Effect::Fail(Failure::BadSlice)]));
}

#[test]
fn failure_stops_the_chunk_after_earlier_effects() {
    let (_, e) = run(waiting(), b"%output %4 ok\n%window-add\n%output %5 later\n");
    assert_eq!(e.len(), 3);
    assert!(matches!(e[0], Effect::OpenPane(4)));
    assert!(matches!(e[2], Effect::Fail(Failure::MissingArgument)));
}

#[test]
fn window_add_and_ignored_notifications() {
    let (mode, e) = run(waiting(), b"%window-add @2\n%sessions-changed\n%unknown x y\n%begin 1 2 3\n");
    assert!(matches!(mode, InputMode::TmuxWaiting(_)));
    assert!(e.is_empty());
}

#[test]
fn invalid_utf8_line_fails() {
    let (_, e) = run(waiting(), b"%output %1 \xff\n");
    assert!(matches!(e[..], [Effect::Fail(Failure::InvalidUtf8)]));
}

#[test]
fn command_block_ignores_input() {
    let (mode, e) = run(InputMode::TmuxCommandBlock("tmux".to_string()), b"%exit\nanything");
    assert!(matches!(mode, InputMode::TmuxCommandBlock(_)));
    assert!(e.is_empty());
}

#[test]
fn interpret_single_lines() {
    assert!(matches!(interpret_line(b"%exit"), LineResult::Exit));
    match interpret_line(b"%output %7 x") {
        LineResult::Continue(e) => assert!(matches!(&e[1], Effect::WritePane(7, t) if t == "x")),
        _ => panic!("expected effects"),
    }
}

#[test]
fn join_unescaped_texts_with_spaces() {
    let parts = vec!["a".to_string(), "".to_string(), "b c".to_string()];
    assert_eq!(join_with_spaces(&parts), "a  b c");
    assert_eq!(join_with_spaces(&vec![]), "");
    assert_eq!(join_with_spaces(&vec!["only".to_string()]), "only");
}

#[test]
fn nested_layout_change_reaches_the_caller() {
    let (_, effects) = run(waiting(), b"%layout-change @3 9a1f,159x48,0,0{79x48,0,0,1,79x48,80,0[79x24,80,0,2,79x23,80,25,3]}\r\n");
    assert_eq!(effects.len(), 1);
    match &effects[0] {
        Effect::LayoutChange(l) => match l.contains() {
            Container::LeftRightLayout(cells) => {
                assert_eq!(cells.len(), 2);
                assert!(matches!(cells[1].contains(), Container::TopDownLayout(rows) if rows.len() == 2));
            }
            other => panic!("unexpected {:?}", other),
        },
        other => panic!("unexpected {:?}", other),
    }
}

#[test]
fn split_dec_sequence_is_not_detected() {
    let (mode, effects) = run(InputMode::LookingForTmuxDec, b"x\x1bP10");
    assert!(matches!(mode, InputMode::LookingForTmuxDec));
    assert_eq!(effects.len(), 2);
    let (mode, _) = run(mode, b"00p");
    assert!(matches!(mode, InputMode::LookingForTmuxDec));
}

#[test]
fn exit_after_earlier_lines() {
    let (mode, effects) = run(waiting(), b"%output %3 hi\n%session-changed $1 s\n\t%exit\t\r\nplain");
    assert!(matches!(mode, InputMode::LookingForTmuxDec));
    assert_eq!(effects.len(), 5);
    assert!(matches!(effects[0], Effect::OpenPane(3)));
    assert!(matches!(&effects[1], Effect::WritePane(3, t) if t == "hi"));
    assert!(matches!(effects[2], Effect::ClearPanes));
    assert!(matches!(&effects[3], Effect::WriteStdout(b) if b.as_slice() == b"plain"));
    assert!(matches!(effects[4], Effect::FlushStdout));
}

#[test]
fn carriage_return_before_newline_changes_nothing() {
    let plain: &[u8] = b"%output %1 a\\040b\n%layout-change @1 ab12,80x24,0,0,5\n%output %2 c\n";
    let with_cr: &[u8] = b"%output %1 a\\040b\r\n%layout-change @1 ab12,80x24,0,0,5\r\n%output %2 c\n";
    let (m1, e1) = run(waiting(), plain);
    let (m2, e2) = run(waiting(), with_cr);
    assert_eq!(format!("{:?}", m1), format!("{:?}", m2));
    assert_eq!(format!("{:?}", e1), format!("{:?}", e2));
    assert_eq!(e1.len(), 5);
}
